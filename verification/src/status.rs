//! What a node tells of its network.

use crate::address::{peer_text, sorted_peers, PeerId, PeerSet};
use crate::endpoints::{texts, EndpointLimits};
use crate::ids::{sort_by_key, sorted_by_key, Keyed};
use crate::listeners::{address_view, Listeners, ListenersModel};
use crate::loop_state::{LoopModel, P2pEventLoop};
use crate::metrics::{
    histories, ByPath, HistoryModel, P2pSessionDirection, P2pSessionHistory, PathMetrics,
    SessionRuntime, TransferCounters,
};
use crate::ordered::{bytes_le, lex_le, sort_ranked, sorted_numbers, sorted_texts, Ranked, TextSet};
use crate::policy::P2pPath;
use crate::tor::TorMode;
use crate::transport::sorted_vec;
use vstd::prelude::*;

verus! {

/// The bytes that went to and from a peer over a path.
#[derive(Clone, Copy, Debug, PartialEq, Eq, Structural)]
pub struct P2pPathTransfer {
    pub path: P2pPath,
    pub application_bytes_sent: u64,
    pub application_bytes_received: u64,
}

/// What is known of the traffic with a peer.
#[derive(Debug)]
pub struct P2pPeerStatus {
    pub peer_id: String,
    pub active_paths: Vec<P2pPath>,
    pub last_application_path: Option<P2pPath>,
    pub application_bytes_sent: u64,
    pub application_bytes_received: u64,
    pub path_transfers: Vec<P2pPathTransfer>,
}

/// What the status of a peer is, for contracts.
pub struct PeerStatusModel {
    pub peer_id: Seq<char>,
    pub active_paths: Seq<P2pPath>,
    pub last_application_path: Option<P2pPath>,
    pub application_bytes_sent: u64,
    pub application_bytes_received: u64,
    pub path_transfers: Seq<P2pPathTransfer>,
}

impl P2pPeerStatus {
    pub open spec fn view(&self) -> PeerStatusModel {
        PeerStatusModel {
            peer_id: self.peer_id@,
            active_paths: self.active_paths@,
            last_application_path: self.last_application_path,
            application_bytes_sent: self.application_bytes_sent,
            application_bytes_received: self.application_bytes_received,
            path_transfers: self.path_transfers@,
        }
    }
}

/// What the entries of a list of peers are.
pub open spec fn peer_statuses(list: Seq<P2pPeerStatus>) -> Seq<PeerStatusModel> {
    list.map_values(|status: P2pPeerStatus| status@)
}

/// An open session.
#[derive(Debug)]
pub struct P2pActiveSession {
    pub sequence: u64,
    pub peer_id: String,
    pub path: P2pPath,
    pub direction: P2pSessionDirection,
    pub opened_at_unix_seconds: u64,
}

/// What an open session is, for contracts.
pub struct ActiveSessionModel {
    pub sequence: u64,
    pub peer_id: Seq<char>,
    pub path: P2pPath,
    pub direction: P2pSessionDirection,
    pub opened_at_unix_seconds: u64,
}

impl P2pActiveSession {
    pub open spec fn view(&self) -> ActiveSessionModel {
        ActiveSessionModel {
            sequence: self.sequence,
            peer_id: self.peer_id@,
            path: self.path,
            direction: self.direction,
            opened_at_unix_seconds: self.opened_at_unix_seconds,
        }
    }
}

pub open spec fn session_models(list: Seq<P2pActiveSession>) -> Seq<ActiveSessionModel> {
    list.map_values(|session: P2pActiveSession| session@)
}

/// The counters of a path.
#[derive(Clone, Copy, Debug, PartialEq, Eq, Structural)]
pub struct P2pPathMetrics {
    pub path: P2pPath,
    pub sessions_opened: u64,
    pub sessions_closed: u64,
    pub dial_failures: u64,
    pub requests_succeeded: u64,
    pub requests_failed: u64,
    pub request_latency_millis_total: u64,
    pub application_bytes_sent: u64,
    pub application_bytes_received: u64,
}

/// What a node tells of its network.
#[derive(Debug)]
pub struct P2pStatus {
    pub peer_id: String,
    pub network_ready: bool,
    pub direct_listeners_configured: usize,
    pub direct_listeners_active: usize,
    pub relay_reservations_configured: usize,
    pub relay_reservations_active: usize,
    pub tor_mode: TorMode,
    pub onion_service_configured: bool,
    pub onion_service_reachable: bool,
    pub port_mapping_enabled: bool,
    pub port_mapping_external_address: Option<String>,
    pub degraded: Vec<String>,
    pub listen_addresses: Vec<String>,
    pub advertised_addresses: Vec<String>,
    pub peers: Vec<P2pPeerStatus>,
    pub active_sessions: Vec<P2pActiveSession>,
    pub recent_sessions: Vec<P2pSessionHistory>,
    pub path_metrics: Vec<P2pPathMetrics>,
}

/// Every path, in order.
pub open spec fn all_paths() -> Seq<P2pPath> {
    seq![
        P2pPath::Direct,
        P2pPath::Relayed,
        P2pPath::HolePunched,
        P2pPath::RelayFallback,
        P2pPath::Tor,
    ]
}

/// The metrics of a path as they are told.
pub open spec fn told_metrics(path: P2pPath, metrics: PathMetrics) -> P2pPathMetrics {
    P2pPathMetrics {
        path,
        sessions_opened: metrics.sessions_opened,
        sessions_closed: metrics.sessions_closed,
        dial_failures: metrics.dial_failures,
        requests_succeeded: metrics.requests_succeeded,
        requests_failed: metrics.requests_failed,
        request_latency_millis_total: metrics.request_latency_millis_total,
        application_bytes_sent: metrics.application_bytes_sent,
        application_bytes_received: metrics.application_bytes_received,
    }
}

/// The first so many paths that have metrics, with these.
pub open spec fn metrics_upto(metrics: ByPath<PathMetrics>, n: nat) -> Seq<P2pPathMetrics>
    decreases n,
{
    if n == 0 {
        Seq::empty()
    } else {
        let before = metrics_upto(metrics, (n - 1) as nat);
        let path = all_paths()[n - 1];
        match metrics.at(path) {
            Some(found) => before.push(told_metrics(path, found)),
            None => before,
        }
    }
}

/// The first so many paths that have counters, with these.
pub open spec fn transfers_upto(counters: ByPath<TransferCounters>, n: nat) -> Seq<P2pPathTransfer>
    decreases n,
{
    if n == 0 {
        Seq::empty()
    } else {
        let before = transfers_upto(counters, (n - 1) as nat);
        let path = all_paths()[n - 1];
        match counters.at(path) {
            Some(found) => before.push(
                P2pPathTransfer {
                    path,
                    application_bytes_sent: found.sent,
                    application_bytes_received: found.received,
                },
            ),
            None => before,
        }
    }
}

/// An open session as it is told.
pub open spec fn told_session(session: SessionRuntime) -> ActiveSessionModel {
    ActiveSessionModel {
        sequence: session.sequence,
        peer_id: peer_text(session.peer),
        path: session.path,
        direction: session.direction,
        opened_at_unix_seconds: session.opened_at_unix_seconds,
    }
}

impl LoopModel {
    /// The first so many paths over which the node is connected to the peer.
    pub open spec fn paths_upto(self, peer: PeerId, n: nat) -> Seq<P2pPath>
        decreases n,
    {
        if n == 0 {
            Seq::empty()
        } else {
            let before = self.paths_upto(peer, (n - 1) as nat);
            let path = all_paths()[n - 1];
            if self.links.connected_by(peer, path) {
                before.push(path)
            } else {
                before
            }
        }
    }

    /// What is told of a peer.
    pub open spec fn peer_status(self, peer: PeerId) -> PeerStatusModel {
        let total = if self.transfers.contains_key(peer) {
            self.transfers[peer]
        } else {
            TransferCounters { sent: 0, received: 0 }
        };
        PeerStatusModel {
            peer_id: peer_text(peer),
            active_paths: self.paths_upto(peer, 5),
            last_application_path: if self.last_paths.contains_key(peer) {
                Some(self.last_paths[peer])
            } else {
                None
            },
            application_bytes_sent: total.sent,
            application_bytes_received: total.received,
            path_transfers: if self.path_transfers.contains_key(peer) {
                transfers_upto(self.path_transfers[peer], 5)
            } else {
                Seq::empty()
            },
        }
    }

    /// What is told of peers.
    pub open spec fn told_peers(self, peers: Seq<PeerId>) -> Seq<PeerStatusModel> {
        peers.map_values(|peer: PeerId| self.peer_status(peer))
    }

    /// The open sessions, in the order of their connections.
    pub open spec fn told_sessions(self) -> Seq<ActiveSessionModel> {
        sorted_numbers(self.log.sessions.dom()).map_values(
            |connection: u64| told_session(self.log.sessions[connection]),
        )
    }
}

impl Keyed for String {
    open spec fn key(&self) -> Seq<u8> {
        String::rank_of(self@)
    }

    fn key_le(&self, other: &Self) -> (result: bool) {
        bytes_le(self.rank().as_slice(), other.rank().as_slice())
    }
}

impl Keyed for P2pPeerStatus {
    open spec fn key(&self) -> Seq<u8> {
        String::rank_of(self.peer_id@)
    }

    fn key_le(&self, other: &Self) -> (result: bool) {
        self.peer_id.key_le(&other.peer_id)
    }
}

/// Sessions are in the order of their numbers.
pub open spec fn in_sequence(sessions: Seq<ActiveSessionModel>) -> bool {
    forall|i: int, j: int|
        0 <= i <= j < sessions.len() ==> (#[trigger] sessions[i]).sequence <= (
        #[trigger] sessions[j]).sequence
}

fn path_at(index: usize) -> (path: P2pPath)
    requires
        index < 5,
    ensures
        path == all_paths()[index as int],
{
    if index == 0 {
        P2pPath::Direct
    } else if index == 1 {
        P2pPath::Relayed
    } else if index == 2 {
        P2pPath::HolePunched
    } else if index == 3 {
        P2pPath::RelayFallback
    } else {
        P2pPath::Tor
    }
}

fn tell_transfers(counters: &ByPath<TransferCounters>) -> (list: Vec<P2pPathTransfer>)
    ensures
        list@ == transfers_upto(*counters, 5),
{
    let mut list: Vec<P2pPathTransfer> = Vec::new();
    let mut i: usize = 0;
    while i < 5
        invariant
            i <= 5,
            list@ == transfers_upto(*counters, i as nat),
        decreases 5 - i,
    {
        let path = path_at(i);
        if let Some(found) = counters.get(path) {
            list.push(
                P2pPathTransfer {
                    path,
                    application_bytes_sent: found.sent,
                    application_bytes_received: found.received,
                },
            );
        }
        i += 1;
    }
    list
}

fn tell_metrics(metrics: &ByPath<PathMetrics>) -> (list: Vec<P2pPathMetrics>)
    ensures
        list@ == metrics_upto(*metrics, 5),
{
    let mut list: Vec<P2pPathMetrics> = Vec::new();
    let mut i: usize = 0;
    while i < 5
        invariant
            i <= 5,
            list@ == metrics_upto(*metrics, i as nat),
        decreases 5 - i,
    {
        let path = path_at(i);
        if let Some(found) = metrics.get(path) {
            list.push(
                P2pPathMetrics {
                    path,
                    sessions_opened: found.sessions_opened,
                    sessions_closed: found.sessions_closed,
                    dial_failures: found.dial_failures,
                    requests_succeeded: found.requests_succeeded,
                    requests_failed: found.requests_failed,
                    request_latency_millis_total: found.request_latency_millis_total,
                    application_bytes_sent: found.application_bytes_sent,
                    application_bytes_received: found.application_bytes_received,
                },
            );
        }
        i += 1;
    }
    list
}

/// Puts a session in its place by number.
fn insert_session(list: &mut Vec<P2pActiveSession>, session: P2pActiveSession)
    requires
        in_sequence(session_models(old(list)@)),
    ensures
        in_sequence(session_models(final(list)@)),
        session_models(final(list)@).to_multiset() == session_models(
            old(list)@,
        ).to_multiset().insert(session@),
{
    broadcast use vstd::seq_lib::group_to_multiset_ensures;

    let mut at: usize = list.len();
    let ghost models = session_models(list@);
    let mut searching = true;
    while searching
        invariant
            at <= list@.len() == models.len(),
            models == session_models(list@),
            list@ == old(list)@,
            in_sequence(models),
            forall|k: int| at <= k < models.len() ==> session.sequence <= (
            #[trigger] models[k]).sequence,
            !searching ==> at == 0 || models[at - 1].sequence <= session.sequence,
        decreases at, searching as int,
    {
        if at == 0 {
            searching = false;
        } else {
            assert(models[at - 1] == list@[at - 1]@);
            if list[at - 1].sequence <= session.sequence {
                searching = false;
            } else {
                at -= 1;
            }
        }
    }
    let ghost item = session@;
    list.insert(at, session);
    proof {
        let whole = session_models(list@);
        assert(whole =~= models.insert(at as int, item));
        vstd::seq_lib::to_multiset_insert(models, at as int, item);
        assert forall|i: int, j: int| 0 <= i <= j < whole.len() implies (
        #[trigger] whole[i]).sequence <= (#[trigger] whole[j]).sequence by {
            let x = if i < at {
                i
            } else {
                i - 1
            };
            let y = if j < at {
                j
            } else {
                j - 1
            };
            if i == at && j == at {
            } else if i == at {
                assert(whole[j] == models[y]);
            } else if j == at {
                assert(whole[i] == models[x]);
                if at > 0 {
                    assert(models[x].sequence <= models[at - 1].sequence);
                }
            } else {
                assert(whole[i] == models[x] && whole[j] == models[y]);
            }
        }
    }
}

/// A status tells what a node in a state knows of its network. `connected` are
/// the peers to which the transport has a connection.
pub open spec fn tells(
    status: P2pStatus,
    state: LoopModel,
    listeners: ListenersModel,
    listen_addresses: Seq<String>,
    connected: Set<PeerId>,
) -> bool {
    let listening = texts(sorted_by_key(listen_addresses));
    let refused = listeners.refused(state.book.limits, state.local_peer, listening);
    &&& status.peer_id@ == peer_text(state.local_peer)
    &&& status.network_ready == listeners.ready()
    &&& status.direct_listeners_configured == listeners.direct.len()
    &&& status.direct_listeners_active == listeners.active_direct.len()
    &&& status.relay_reservations_configured == listeners.reservations.len()
    &&& status.relay_reservations_active == listeners.active_relay.len()
    &&& status.tor_mode == listeners.mode
    &&& status.onion_service_configured == (listeners.mode != TorMode::DisableTor)
    &&& status.onion_service_reachable == listeners.active_tor
    &&& status.port_mapping_enabled == listeners.port_mapping_enabled
    &&& match status.port_mapping_external_address {
        Some(text) => listeners.mapped is Some && text@ == crate::address::address_text(
            listeners.mapped->0,
        ),
        None => listeners.mapped is None,
    }
    &&& status.listen_addresses@ == sorted_by_key(listen_addresses)
    &&& texts(status.degraded@) == sorted_texts(
        listeners.degradation(refused).to_set().union(refused.to_set()),
    )
    &&& texts(status.advertised_addresses@) == listeners.published(
        state.book.limits,
        state.local_peer,
        listening,
    )
    &&& exists|unsorted: Seq<P2pPeerStatus>|
        {
            &&& peer_statuses(unsorted) == state.told_peers(
                sorted_peers(connected.union(state.transfers.dom())),
            )
            &&& status.peers@ == #[trigger] sorted_by_key(unsorted)
        }
    &&& in_sequence(session_models(status.active_sessions@))
    &&& session_models(status.active_sessions@).to_multiset()
        == state.told_sessions().to_multiset()
    &&& histories(status.recent_sessions@) == state.log.recent
    &&& status.path_metrics@ == metrics_upto(state.log.metrics, 5)
}

impl P2pEventLoop {
    fn tell_paths(&self, peer: PeerId) -> (paths: Vec<P2pPath>)
        requires
            self.wf(),
        ensures
            paths@ == self@.paths_upto(peer, 5),
    {
        let mut paths: Vec<P2pPath> = Vec::new();
        let mut i: usize = 0;
        while i < 5
            invariant
                i <= 5,
                self.wf(),
                paths@ == self@.paths_upto(peer, i as nat),
            decreases 5 - i,
        {
            let path = path_at(i);
            if self.links.is_connected_by(peer, path) {
                paths.push(path);
            }
            i += 1;
        }
        paths
    }

    /// What is told of a peer.
    pub fn peer_status(&self, peer: PeerId) -> (status: P2pPeerStatus)
        requires
            self.wf(),
        ensures
            status@ == self@.peer_status(peer),
    {
        let (sent, received): (u64, u64) = match self.transfers.get(peer) {
            Some(total) => (total.sent, total.received),
            None => (0, 0),
        };
        let last: Option<P2pPath> = match self.last_paths.get(peer) {
            Some(path) => Some(*path),
            None => None,
        };
        let path_transfers = match self.path_transfers.get(peer) {
            Some(counters) => tell_transfers(counters),
            None => Vec::new(),
        };
        P2pPeerStatus {
            peer_id: peer.text(),
            active_paths: self.tell_paths(peer),
            last_application_path: last,
            application_bytes_sent: sent,
            application_bytes_received: received,
            path_transfers,
        }
    }

    fn tell_peers(&self, peers: &Vec<PeerId>) -> (list: Vec<P2pPeerStatus>)
        requires
            self.wf(),
        ensures
            peer_statuses(list@) == self@.told_peers(peers@),
    {
        let mut list: Vec<P2pPeerStatus> = Vec::new();
        let mut i: usize = 0;
        assert(peer_statuses(list@) =~= self@.told_peers(peers@.take(0)));
        while i < peers.len()
            invariant
                i <= peers@.len(),
                self.wf(),
                peer_statuses(list@) == self@.told_peers(peers@.take(i as int)),
            decreases peers@.len() - i,
        {
            let ghost before = list@;
            let status = self.peer_status(peers[i]);
            let ghost told = status@;
            list.push(status);
            assert(peer_statuses(list@) =~= peer_statuses(before).push(told));
            assert(self@.told_peers(peers@.take(i + 1)) =~= self@.told_peers(
                peers@.take(i as int),
            ).push(told));
            i += 1;
        }
        assert(peers@.take(i as int) =~= peers@);
        list
    }

    fn tell_sessions(&self) -> (list: Vec<P2pActiveSession>)
        requires
            self.wf(),
        ensures
            in_sequence(session_models(list@)),
            session_models(list@).to_multiset() == self@.told_sessions().to_multiset(),
    {
        broadcast use vstd::seq_lib::group_to_multiset_ensures;

        proof {
            crate::ordered::lemma_number_rank_tells_apart();
        }
        let keys = self.log.sessions.sorted_keys();
        proof {
            keys.lemma_sorted();
        }
        let connections = keys.to_vec();
        let ghost numbers = sorted_numbers(self@.log.sessions.dom());
        proof {
            assert(crate::ordered::models(connections@) =~= connections@);
            assert(connections@ == numbers);
            assert forall|k: int| 0 <= k < numbers.len() implies self@.log.sessions.contains_key(
                #[trigger] numbers[k],
            ) by {
                assert(keys.seq()[k] == numbers[k]);
                assert(keys@.contains(numbers[k]));
            }
        }
        let mut list: Vec<P2pActiveSession> = Vec::new();
        let ghost told = self@.told_sessions();
        let mut i: usize = 0;
        proof {
            assert(session_models(list@) =~= Seq::empty());
            assert(told.take(0) =~= Seq::empty());
        }
        while i < connections.len()
            invariant
                i <= connections@.len() == told.len(),
                self.wf(),
                connections@ == numbers,
                told == self@.told_sessions(),
                numbers == sorted_numbers(self@.log.sessions.dom()),
                forall|k: int|
                    0 <= k < numbers.len() ==> self@.log.sessions.contains_key(
                        #[trigger] numbers[k],
                    ),
                in_sequence(session_models(list@)),
                session_models(list@).to_multiset() == told.take(i as int).to_multiset(),
            decreases connections@.len() - i,
        {
            let connection: u64 = connections[i];
            assert(self@.log.sessions.contains_key(numbers[i as int]));
            if let Some(session) = self.log.sessions.get(connection) {
                let item = P2pActiveSession {
                    sequence: session.sequence,
                    peer_id: session.peer.text(),
                    path: session.path,
                    direction: session.direction,
                    opened_at_unix_seconds: session.opened_at_unix_seconds,
                };
                assert(item@ == told[i as int]);
                insert_session(&mut list, item);
            }
            proof {
                broadcast use vstd::seq_lib::group_to_multiset_ensures;

                let taken = told.take(i as int);
                assert(told.take(i + 1) =~= taken.push(told[i as int]));
                assert(taken.push(told[i as int]).to_multiset() =~= taken.to_multiset().insert(
                    told[i as int],
                ));
            }
            i += 1;
        }
        assert(told.take(i as int) =~= told);
        list
    }

    /// What the node tells of its network. `connected` are the peers to which
    /// the transport has a connection.
    pub fn status(
        &self,
        listeners: &Listeners,
        listen_addresses: Vec<String>,
        connected: &PeerSet,
    ) -> (status: P2pStatus)
        requires
            self.wf(),
            listeners.wf(),
            connected.wf(),
        ensures
            tells(status, self@, listeners@, listen_addresses@, connected@),
    {
        let sorted = sort_by_key(listen_addresses);
        let selected = listeners.current_advertised_endpoints(
            &self.book.limits,
            self.local_peer,
            &sorted,
        );
        let degraded = listeners.transport_degradation(
            &self.book.limits,
            self.local_peer,
            &sorted,
        );
        let degraded = merged_texts(&degraded, &selected.rejected);
        proof {
            crate::address::lemma_peer_rank_tells_apart();
        }
        let mut known = self.transfers.sorted_keys();
        known.union_with(connected);
        assert(known@ =~= connected@.union(self@.transfers.dom()));
        let order = sorted_vec(&known);
        let peers = self.tell_peers(&order);
        let ghost unsorted = peers@;
        let peers = sort_by_key(peers);
        assert(peers@ == sorted_by_key(unsorted));
        let mapped = match &listeners.mapped {
            Some(address) => Some(address.text()),
            None => None,
        };
        P2pStatus {
            peer_id: self.local_peer.text(),
            network_ready: listeners.network_ready(),
            direct_listeners_configured: listeners.direct.len(),
            direct_listeners_active: listeners.active_direct.len(),
            relay_reservations_configured: listeners.reservations.len(),
            relay_reservations_active: listeners.active_relay.len(),
            tor_mode: listeners.mode,
            onion_service_configured: listeners.mode.enabled(),
            onion_service_reachable: listeners.active_tor,
            port_mapping_enabled: listeners.port_mapping_enabled,
            port_mapping_external_address: mapped,
            degraded,
            listen_addresses: sorted,
            advertised_addresses: selected.addresses,
            peers,
            active_sessions: self.tell_sessions(),
            recent_sessions: copy_histories(&self.log.recent),
            path_metrics: tell_metrics(&self.log.metrics),
        }
    }
}

/// The texts of two lists in order, without repetition.
fn merged_texts(first: &Vec<String>, second: &Vec<String>) -> (merged: Vec<String>)
    ensures
        texts(merged@) == sorted_texts(texts(first@).to_set().union(texts(second@).to_set())),
{
    let mut all: Vec<String> = Vec::new();
    let mut i: usize = 0;
    assert(texts(all@) =~= texts(first@).take(0));
    while i < first.len()
        invariant
            i <= first@.len(),
            texts(all@) == texts(first@).take(i as int),
        decreases first@.len() - i,
    {
        let ghost before = all@;
        all.push(first[i].clone());
        assert(texts(all@) =~= texts(before).push(first@[i as int]@));
        assert(texts(first@).take(i + 1) =~= texts(first@).take(i as int).push(
            first@[i as int]@,
        ));
        i += 1;
    }
    let mut j: usize = 0;
    assert(texts(first@).take(i as int) + texts(second@).take(0) =~= texts(all@));
    while j < second.len()
        invariant
            j <= second@.len(),
            texts(all@) == texts(first@) + texts(second@).take(j as int),
        decreases second@.len() - j,
    {
        let ghost before = all@;
        all.push(second[j].clone());
        assert(texts(all@) =~= texts(before).push(second@[j as int]@));
        assert(texts(second@).take(j + 1) =~= texts(second@).take(j as int).push(
            second@[j as int]@,
        ));
        assert(texts(all@) =~= texts(first@) + texts(second@).take(j + 1));
        j += 1;
    }
    proof {
        crate::ordered::lemma_text_rank_tells_apart();
        assert(texts(second@).take(j as int) =~= texts(second@));
        assert(crate::ordered::models(all@) =~= texts(all@));
        assert forall|t: Seq<char>| texts(all@).to_set().contains(t) == texts(
            first@,
        ).to_set().union(texts(second@).to_set()).contains(t) by {
            let a = texts(first@);
            let b = texts(second@);
            if a.contains(t) {
                let k = choose|k: int| 0 <= k < a.len() && a[k] == t;
                assert((a + b)[k] == t);
            }
            if b.contains(t) {
                let k = choose|k: int| 0 <= k < b.len() && b[k] == t;
                assert((a + b)[a.len() + k] == t);
            }
            if (a + b).contains(t) {
                let k = choose|k: int| 0 <= k < (a + b).len() && (a + b)[k] == t;
                if k < a.len() {
                    assert(a[k] == t);
                } else {
                    assert(b[k - a.len()] == t);
                }
            }
        }
        assert(texts(all@).to_set() =~= texts(first@).to_set().union(texts(second@).to_set()));
    }
    let merged = sort_ranked(&all);
    assert(crate::ordered::models(merged@) =~= texts(merged@));
    merged
}

fn copy_histories(list: &Vec<P2pSessionHistory>) -> (copy: Vec<P2pSessionHistory>)
    ensures
        histories(copy@) == histories(list@),
{
    let mut copy: Vec<P2pSessionHistory> = Vec::new();
    let mut i: usize = 0;
    assert(histories(copy@) =~= histories(list@).take(0));
    while i < list.len()
        invariant
            i <= list@.len(),
            histories(copy@) == histories(list@).take(i as int),
        decreases list@.len() - i,
    {
        let ghost before = copy@;
        let item = list[i].duplicate();
        let ghost model = item@;
        copy.push(item);
        assert(histories(copy@) =~= histories(before).push(model));
        assert(histories(list@).take(i + 1) =~= histories(list@).take(i as int).push(
            list@[i as int]@,
        ));
        i += 1;
    }
    assert(histories(list@).take(i as int) =~= histories(list@));
    copy
}

/// The metrics of a path are told, unchanged, if there are any; and so are the bytes
/// that a peer exchanged over it, and that there is a connection over it.
pub proof fn every_path_is_told_of(
    metrics: ByPath<PathMetrics>,
    counters: ByPath<TransferCounters>,
    state: LoopModel,
    peer: PeerId,
    path: P2pPath,
)
    ensures
        metrics.at(path) matches Some(found) ==> exists|i: int|
            0 <= i < metrics_upto(metrics, 5).len() && #[trigger] metrics_upto(metrics, 5)[i] == (
            P2pPathMetrics {
                path,
                sessions_opened: found.sessions_opened,
                sessions_closed: found.sessions_closed,
                dial_failures: found.dial_failures,
                requests_succeeded: found.requests_succeeded,
                requests_failed: found.requests_failed,
                request_latency_millis_total: found.request_latency_millis_total,
                application_bytes_sent: found.application_bytes_sent,
                application_bytes_received: found.application_bytes_received,
            }),
        metrics.at(path) is None ==> forall|i: int|
            0 <= i < metrics_upto(metrics, 5).len() ==> (#[trigger] metrics_upto(metrics, 5)[i]).path
                != path,
        counters.at(path) matches Some(found) ==> exists|i: int|
            0 <= i < transfers_upto(counters, 5).len() && #[trigger] transfers_upto(counters, 5)[i]
                == (P2pPathTransfer {
                path,
                application_bytes_sent: found.sent,
                application_bytes_received: found.received,
            }),
        counters.at(path) is None ==> forall|i: int|
            0 <= i < transfers_upto(counters, 5).len() ==> (#[trigger] transfers_upto(
                counters,
                5,
            )[i]).path != path,
        state.paths_upto(peer, 5).contains(path) <==> state.links.connected_by(peer, path),
{
    reveal_with_fuel(metrics_upto, 6);
    reveal_with_fuel(transfers_upto, 6);
    lemma_metrics_told(metrics, path, 5);
    lemma_transfers_told(counters, path, 5);
    lemma_paths_told(state, peer, path, 5);
}

spec fn place_of(path: P2pPath) -> int {
    match path {
        P2pPath::Direct => 0,
        P2pPath::Relayed => 1,
        P2pPath::HolePunched => 2,
        P2pPath::RelayFallback => 3,
        P2pPath::Tor => 4,
    }
}

proof fn lemma_metrics_told(metrics: ByPath<PathMetrics>, path: P2pPath, n: nat)
    requires
        n <= 5,
    ensures
        ({
            let told = metrics_upto(metrics, n);
            if place_of(path) < n && metrics.at(path) is Some {
                exists|i: int|
                    0 <= i < told.len() && #[trigger] told[i] == told_metrics(
                        path,
                        metrics.at(path)->0,
                    )
            } else {
                forall|i: int| 0 <= i < told.len() ==> (#[trigger] told[i]).path != path
            }
        }),
    decreases n,
{
    if n > 0 {
        lemma_metrics_told(metrics, path, (n - 1) as nat);
        let before = metrics_upto(metrics, (n - 1) as nat);
        let told = metrics_upto(metrics, n);
        assert(all_paths()[place_of(path)] == path);
        if place_of(path) == n - 1 && metrics.at(path) is Some {
            assert(told[before.len() as int] == told_metrics(path, metrics.at(path)->0));
        } else if place_of(path) < n - 1 && metrics.at(path) is Some {
            let i = choose|i: int|
                0 <= i < before.len() && #[trigger] before[i] == told_metrics(
                    path,
                    metrics.at(path)->0,
                );
            assert(told[i] == before[i]);
        }
    }
}

proof fn lemma_transfers_told(counters: ByPath<TransferCounters>, path: P2pPath, n: nat)
    requires
        n <= 5,
    ensures
        ({
            let told = transfers_upto(counters, n);
            if place_of(path) < n && counters.at(path) is Some {
                exists|i: int|
                    0 <= i < told.len() && #[trigger] told[i] == (P2pPathTransfer {
                        path,
                        application_bytes_sent: counters.at(path)->0.sent,
                        application_bytes_received: counters.at(path)->0.received,
                    })
            } else {
                forall|i: int| 0 <= i < told.len() ==> (#[trigger] told[i]).path != path
            }
        }),
    decreases n,
{
    if n > 0 {
        lemma_transfers_told(counters, path, (n - 1) as nat);
        let before = transfers_upto(counters, (n - 1) as nat);
        let told = transfers_upto(counters, n);
        assert(all_paths()[place_of(path)] == path);
        if place_of(path) == n - 1 && counters.at(path) is Some {
            assert(told[before.len() as int].path == path);
        } else if place_of(path) < n - 1 && counters.at(path) is Some {
            let i = choose|i: int|
                0 <= i < before.len() && #[trigger] before[i] == (P2pPathTransfer {
                    path,
                    application_bytes_sent: counters.at(path)->0.sent,
                    application_bytes_received: counters.at(path)->0.received,
                });
            assert(told[i] == before[i]);
        }
    }
}

proof fn lemma_paths_told(state: LoopModel, peer: PeerId, path: P2pPath, n: nat)
    requires
        n <= 5,
    ensures
        state.paths_upto(peer, n).contains(path) <==> place_of(path) < n
            && state.links.connected_by(peer, path),
    decreases n,
{
    if n > 0 {
        lemma_paths_told(state, peer, path, (n - 1) as nat);
        let before = state.paths_upto(peer, (n - 1) as nat);
        let told = state.paths_upto(peer, n);
        assert(all_paths()[place_of(path)] == path);
        if before.contains(path) {
            let i = choose|i: int| 0 <= i < before.len() && before[i] == path;
            assert(told[i] == path);
        }
        if told.contains(path) && !before.contains(path) {
            let i = choose|i: int| 0 <= i < told.len() && told[i] == path;
            if i < before.len() {
                assert(before[i] == path);
            }
        }
        if place_of(path) == n - 1 && state.links.connected_by(peer, path) {
            assert(told[before.len() as int] == path);
        }
    }
}

/// A peer is told of by its name, with the path that was used last and the bytes that
/// were exchanged with it, or none where nothing was counted. A session is told of as
/// it is.
pub proof fn peers_and_sessions_are_told_as_they_are(
    state: LoopModel,
    peer: PeerId,
    session: SessionRuntime,
)
    ensures
        ({
            let told = state.peer_status(peer);
            let counted = state.transfers.contains_key(peer);
            &&& told.peer_id == peer_text(peer)
            &&& state.last_paths.contains_key(peer) ==> told.last_application_path == Some(
                state.last_paths[peer],
            )
            &&& !state.last_paths.contains_key(peer) ==> told.last_application_path is None
            &&& counted ==> told.application_bytes_sent == state.transfers[peer].sent
                && told.application_bytes_received == state.transfers[peer].received
            &&& !counted ==> told.application_bytes_sent == 0 && told.application_bytes_received
                == 0
            &&& !state.path_transfers.contains_key(peer) ==> told.path_transfers.len() == 0
            &&& state.path_transfers.contains_key(peer) ==> told.path_transfers == transfers_upto(
                state.path_transfers[peer],
                5,
            )
        }),
        ({
            let told = told_session(session);
            &&& told.sequence == session.sequence
            &&& told.peer_id == peer_text(session.peer)
            &&& told.path == session.path
            &&& told.direction == session.direction
            &&& told.opened_at_unix_seconds == session.opened_at_unix_seconds
        }),
{
}

/// A status says of the node who it is, whether and in which ways it can be reached, how
/// many of the ways that were configured there are, and which gateway address leads to
/// it; it lists every open session, the latest that ended, and what it counted.
pub proof fn a_status_says_how_the_node_is(
    status: P2pStatus,
    state: LoopModel,
    listeners: ListenersModel,
    listen_addresses: Seq<String>,
    connected: Set<PeerId>,
)
    requires
        tells(status, state, listeners, listen_addresses, connected),
    ensures
        status.peer_id@ == peer_text(state.local_peer),
        listeners.mode is RequireTor ==> (status.network_ready <==> listeners.active_tor),
        !(listeners.mode is RequireTor) ==> (status.network_ready <==> listeners.active_direct.len()
            > 0 || listeners.active_relay.len() > 0 || listeners.active_tor),
        status.direct_listeners_configured == listeners.direct.len(),
        status.direct_listeners_active == listeners.active_direct.len(),
        status.relay_reservations_configured == listeners.reservations.len(),
        status.relay_reservations_active == listeners.active_relay.len(),
        status.tor_mode == listeners.mode,
        status.onion_service_configured <==> listeners.mode is Auto || listeners.mode is PreferTor
            || listeners.mode is RequireTor,
        status.onion_service_reachable == listeners.active_tor,
        status.port_mapping_enabled == listeners.port_mapping_enabled,
        status.port_mapping_external_address is Some <==> listeners.mapped is Some,
        listeners.mapped matches Some(address) ==> status.port_mapping_external_address->0@
            == crate::address::address_text(address),
        status.listen_addresses@.to_multiset() == listen_addresses.to_multiset(),
        status.active_sessions@.len() == state.told_sessions().len(),
        histories(status.recent_sessions@) == state.log.recent,
        status.peers@.len() == sorted_peers(connected.union(state.transfers.dom())).len(),
        forall|i: int, j: int|
            0 <= i <= j < status.active_sessions@.len() ==> (
            #[trigger] status.active_sessions@[i]).sequence <= (
            #[trigger] status.active_sessions@[j]).sequence,
{
    broadcast use vstd::seq_lib::group_to_multiset_ensures;

    crate::ids::sorting_permutes_and_orders(listen_addresses);
    let models = session_models(status.active_sessions@);
    assert(models.len() == models.to_multiset().len());
    assert(state.told_sessions().len() == state.told_sessions().to_multiset().len());
    assert forall|i: int, j: int| 0 <= i <= j < status.active_sessions@.len() implies (
    #[trigger] status.active_sessions@[i]).sequence <= (
    #[trigger] status.active_sessions@[j]).sequence by {
        assert(models[i].sequence <= models[j].sequence);
    }
    let unsorted = choose|unsorted: Seq<P2pPeerStatus>|
        {
            &&& peer_statuses(unsorted) == state.told_peers(
                sorted_peers(connected.union(state.transfers.dom())),
            )
            &&& status.peers@ == #[trigger] sorted_by_key(unsorted)
        };
    crate::ids::sorting_permutes_and_orders(unsorted);
    assert(peer_statuses(unsorted).len() == unsorted.len());
}

} // verus!
