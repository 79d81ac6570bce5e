//! Recovering a node over direct connections: the directory names publishers,
//! each is asked for the state it speaks of, and the newest is recovered.

use crate::direct::{
    is_newest_served, lemma_newest_served, newest_place, newest_served, published_record_counts,
    record_counts, sealed_counts, sealed_record_counts, servers, servers_of, PublishedRecord,
    ServedCheckpoint,
};
use crate::ids::Id32;
use crate::recovery::{
    latest_place, latest_revision, lemma_latest_place, RecoveryLocator, RevisionFacts,
};
use vstd::prelude::*;

verus! {

/// A record that the directory has about the node, and what was sealed in it.
#[derive(Debug)]
pub struct DirectoryFind {
    pub record: PublishedRecord,
    /// What was sealed in it, where it could be opened and decoded.
    pub opened: Option<RecoveryLocator>,
    /// It names an endpoint of its publisher that can be called.
    pub callable: bool,
}

/// A publisher is asked for the state that its record speaks of: both the
/// record and what was sealed in it count, and it can be called.
pub open spec fn is_asked(find: DirectoryFind, local: Id32) -> bool {
    &&& record_counts(find.record, local)
    &&& find.opened is Some
    &&& sealed_counts(find.record, find.opened->0, local)
    &&& find.callable
}

/// The places of the records whose publishers are asked.
pub open spec fn asked_places(finds: Seq<DirectoryFind>, local: Id32) -> Seq<usize>
    decreases finds.len(),
{
    if finds.len() == 0 {
        Seq::empty()
    } else {
        let before = asked_places(finds.drop_last(), local);
        if is_asked(finds.last(), local) {
            before.push((finds.len() - 1) as usize)
        } else {
            before
        }
    }
}

fn find_asked(finds: &Vec<DirectoryFind>, local: &Id32) -> (asked: (Vec<usize>, Vec<AskedState>))
    ensures
        asked.0@ == asked_places(finds@, *local),
        asked.1@ == states_at(finds@, asked.0@),
{
    let mut places: Vec<usize> = Vec::new();
    let mut states: Vec<AskedState> = Vec::new();
    let mut i: usize = 0;
    assert(finds@.take(0) =~= Seq::empty());
    assert(states@ =~= states_at(finds@, places@));
    while i < finds.len()
        invariant
            i <= finds@.len(),
            places@ == asked_places(finds@.take(i as int), *local),
            states@ == states_at(finds@, places@),
        decreases finds@.len() - i,
    {
        assert(finds@.take(i + 1).drop_last() =~= finds@.take(i as int));
        let find = &finds[i];
        if let Some(locator) = &find.opened {
            if find.callable && published_record_counts(&find.record, local)
                && sealed_record_counts(&find.record, locator, local) {
                let ghost before = places@;
                places.push(i);
                states.push(
                    AskedState {
                        publisher: find.record.publisher,
                        hash: find.record.checkpoint_hash,
                    },
                );
                assert(states@ =~= states_at(finds@, places@));
            }
        }
        i += 1;
    }
    assert(finds@.take(i as int) =~= finds@);
    (places, states)
}

/// The state that a publisher is asked for.
#[derive(Clone, Copy, Debug)]
pub struct AskedState {
    pub publisher: Id32,
    pub hash: Id32,
}

/// The states that records speak of, with their publishers.
pub open spec fn states_at(finds: Seq<DirectoryFind>, places: Seq<usize>) -> Seq<AskedState> {
    places.map_values(
        |place: usize|
            AskedState {
                publisher: finds[place as int].record.publisher,
                hash: finds[place as int].record.checkpoint_hash,
            },
    )
}

/// A state that a publisher served.
#[derive(Clone, Copy, Debug)]
pub struct ServedFacts {
    /// The state is certified and gives the publisher the right it claims.
    pub authority: bool,
    pub generation: u64,
    pub hash: Id32,
}

/// Why a recovery over direct connections failed.
#[derive(Clone, Copy, Debug, PartialEq, Eq, Structural)]
pub enum NetworkRecoveryError {
    /// No publisher led to a certified state.
    NothingServed,
    /// Something that was asked for was not had.
    Outside,
    /// What came was not what was asked for.
    OutOfOrder,
}

/// How far a recovery has come.
#[derive(Clone, Copy, Debug)]
pub enum NetworkRecoveryStage {
    Lookup,
    /// This publisher is asked.
    Asking(usize),
    /// The shards of this state are rebuilt.
    Shards(usize),
    Install(usize),
    Restore(usize, usize),
    Done(usize),
    Failed(NetworkRecoveryError),
}

/// What a recovery needs next.
#[derive(Debug)]
pub enum NetworkRecoveryAction {
    /// Look the node up in the directory.
    Lookup { subject: Id32 },
    /// Ask the publisher of the record at a place for the state that it speaks
    /// of.
    FindState { record: usize, asked: AskedState },
    /// Rebuild what the node held of the state that was served for the record
    /// at a place, from those that served it, too.
    RecoverShards { record: usize, servers: Vec<usize> },
    Install { record: usize },
    /// Restore the revision at a place of the state.
    Restore { record: usize, revision: usize },
    Done { record: usize },
    Failed(NetworkRecoveryError),
}

/// What a recovery needs next, as a plain value.
pub enum NetworkRecoveryActionModel {
    Lookup { subject: Id32 },
    FindState { record: usize, asked: AskedState },
    RecoverShards { record: usize, servers: Seq<usize> },
    Install { record: usize },
    Restore { record: usize, revision: usize },
    Done { record: usize },
    Failed(NetworkRecoveryError),
}

impl NetworkRecoveryAction {
    pub open spec fn view(&self) -> NetworkRecoveryActionModel {
        match *self {
            NetworkRecoveryAction::Lookup { subject } => NetworkRecoveryActionModel::Lookup {
                subject,
            },
            NetworkRecoveryAction::FindState { record, asked } =>
                NetworkRecoveryActionModel::FindState { record, asked },
            NetworkRecoveryAction::RecoverShards { record, servers } =>
                NetworkRecoveryActionModel::RecoverShards { record, servers: servers@ },
            NetworkRecoveryAction::Install { record } => NetworkRecoveryActionModel::Install {
                record,
            },
            NetworkRecoveryAction::Restore { record, revision } =>
                NetworkRecoveryActionModel::Restore { record, revision },
            NetworkRecoveryAction::Done { record } => NetworkRecoveryActionModel::Done { record },
            NetworkRecoveryAction::Failed(error) => NetworkRecoveryActionModel::Failed(error),
        }
    }
}

/// What came of an action.
#[derive(Debug)]
pub enum NetworkRecoveryEvent {
    Records(Vec<DirectoryFind>),
    /// What a publisher served, if it did.
    State(Option<ServedFacts>),
    Recovered,
    /// The state was installed; these are its revisions.
    Installed(Vec<RevisionFacts>),
    Restored,
    Failed,
}

/// What came of an action, as a plain value.
pub enum NetworkRecoveryEventModel {
    Records(Seq<DirectoryFind>),
    State(Option<ServedFacts>),
    Recovered,
    Installed(Seq<RevisionFacts>),
    Restored,
    Failed,
}

impl NetworkRecoveryEvent {
    pub open spec fn view(&self) -> NetworkRecoveryEventModel {
        match *self {
            NetworkRecoveryEvent::Records(finds) => NetworkRecoveryEventModel::Records(finds@),
            NetworkRecoveryEvent::State(state) => NetworkRecoveryEventModel::State(state),
            NetworkRecoveryEvent::Recovered => NetworkRecoveryEventModel::Recovered,
            NetworkRecoveryEvent::Installed(revisions) => NetworkRecoveryEventModel::Installed(
                revisions@,
            ),
            NetworkRecoveryEvent::Restored => NetworkRecoveryEventModel::Restored,
            NetworkRecoveryEvent::Failed => NetworkRecoveryEventModel::Failed,
        }
    }
}

/// A recovery over direct connections.
#[derive(Debug)]
pub struct NetworkRecovery {
    local: Id32,
    asked: Vec<usize>,
    states: Vec<AskedState>,
    served: Vec<ServedCheckpoint>,
    sources: Vec<usize>,
    stage: NetworkRecoveryStage,
}

/// A recovery over direct connections, for contracts.
#[verifier::ext_equal]
pub struct NetworkRecoveryModel {
    pub local: Id32,
    /// The places of the records whose publishers are asked.
    pub asked: Seq<usize>,
    /// What they are asked for.
    pub states: Seq<AskedState>,
    /// What was served.
    pub served: Seq<ServedCheckpoint>,
    /// For which record it was.
    pub sources: Seq<usize>,
    pub stage: NetworkRecoveryStage,
}

impl NetworkRecoveryModel {
    pub open spec fn wf(self) -> bool {
        &&& self.asked.len() == self.states.len()
        &&& self.served.len() == self.sources.len()
        &&& (self.stage matches NetworkRecoveryStage::Asking(at) ==> at < self.asked.len())
        &&& (self.chosen() matches Some(place) ==> is_newest_served(self.served, place as int))
    }

    /// The place, among what was served, of the state that is recovered.
    pub open spec fn chosen(self) -> Option<usize> {
        match self.stage {
            NetworkRecoveryStage::Shards(place) => Some(place),
            NetworkRecoveryStage::Install(place) => Some(place),
            NetworkRecoveryStage::Restore(place, _) => Some(place),
            NetworkRecoveryStage::Done(place) => Some(place),
            _ => None,
        }
    }

    /// The records for which a state was served.
    pub open spec fn servers_for(self, place: int) -> Seq<usize> {
        servers_of(self.served, self.served[place].hash).map_values(
            |server: usize| self.sources[server as int],
        )
    }

    /// What is needed next.
    pub open spec fn next(self) -> NetworkRecoveryActionModel {
        match self.stage {
            NetworkRecoveryStage::Lookup => NetworkRecoveryActionModel::Lookup {
                subject: self.local,
            },
            NetworkRecoveryStage::Asking(at) => NetworkRecoveryActionModel::FindState {
                record: self.asked[at as int],
                asked: self.states[at as int],
            },
            NetworkRecoveryStage::Shards(place) => NetworkRecoveryActionModel::RecoverShards {
                record: self.sources[place as int],
                servers: self.servers_for(place as int),
            },
            NetworkRecoveryStage::Install(place) => NetworkRecoveryActionModel::Install {
                record: self.sources[place as int],
            },
            NetworkRecoveryStage::Restore(place, revision) => NetworkRecoveryActionModel::Restore {
                record: self.sources[place as int],
                revision,
            },
            NetworkRecoveryStage::Done(place) => NetworkRecoveryActionModel::Done {
                record: self.sources[place as int],
            },
            NetworkRecoveryStage::Failed(error) => NetworkRecoveryActionModel::Failed(error),
        }
    }

    /// The recovery at another stage.
    pub open spec fn at(self, stage: NetworkRecoveryStage) -> NetworkRecoveryModel {
        NetworkRecoveryModel { stage, ..self }
    }

    /// The recovery at a publisher, or behind the last: the newest state that
    /// was served is recovered.
    pub open spec fn asking(self, at: int) -> NetworkRecoveryModel {
        if at < self.asked.len() {
            self.at(NetworkRecoveryStage::Asking(at as usize))
        } else {
            match newest_place(self.served) {
                Some(place) => self.at(NetworkRecoveryStage::Shards(place as usize)),
                None => self.at(
                    NetworkRecoveryStage::Failed(NetworkRecoveryError::NothingServed),
                ),
            }
        }
    }

    /// The recovery with what the directory has about the node.
    pub open spec fn with_records(self, finds: Seq<DirectoryFind>) -> NetworkRecoveryModel {
        let asked = asked_places(finds, self.local);
        NetworkRecoveryModel { asked, states: states_at(finds, asked), ..self }.asking(0)
    }

    /// The recovery with what a publisher served.
    pub open spec fn with_state(self, at: int, state: Option<ServedFacts>) -> NetworkRecoveryModel {
        match state {
            Some(state) => if state.authority {
                NetworkRecoveryModel {
                    served: self.served.push(
                        ServedCheckpoint {
                            publisher: self.states[at].publisher,
                            generation: state.generation,
                            hash: state.hash,
                        },
                    ),
                    sources: self.sources.push(self.asked[at]),
                    ..self
                }.asking(at + 1)
            } else {
                self.asking(at + 1)
            },
            None => self.asking(at + 1),
        }
    }

    /// The recovery after an event.
    pub open spec fn after(self, event: NetworkRecoveryEventModel) -> NetworkRecoveryModel {
        match (self.stage, event) {
            (NetworkRecoveryStage::Done(_), _) => self,
            (NetworkRecoveryStage::Failed(_), _) => self,
            (_, NetworkRecoveryEventModel::Failed) => self.at(
                NetworkRecoveryStage::Failed(NetworkRecoveryError::Outside),
            ),
            (NetworkRecoveryStage::Lookup, NetworkRecoveryEventModel::Records(finds)) =>
                self.with_records(finds),
            (NetworkRecoveryStage::Asking(at), NetworkRecoveryEventModel::State(state)) =>
                self.with_state(at as int, state),
            (NetworkRecoveryStage::Shards(place), NetworkRecoveryEventModel::Recovered) => self.at(
                NetworkRecoveryStage::Install(place),
            ),
            (NetworkRecoveryStage::Install(place), NetworkRecoveryEventModel::Installed(revisions)) =>
                match latest_place(revisions, self.local) {
                Some(revision) => self.at(
                    NetworkRecoveryStage::Restore(place, revision as usize),
                ),
                None => self.at(NetworkRecoveryStage::Done(place)),
            },
            (NetworkRecoveryStage::Restore(place, _), NetworkRecoveryEventModel::Restored) =>
                self.at(NetworkRecoveryStage::Done(place)),
            _ => self.at(NetworkRecoveryStage::Failed(NetworkRecoveryError::OutOfOrder)),
        }
    }
}

/// A recovery that has just begun.
pub open spec fn network_recovery_begun(local: Id32) -> NetworkRecoveryModel {
    NetworkRecoveryModel {
        local,
        asked: Seq::empty(),
        states: Seq::empty(),
        served: Seq::empty(),
        sources: Seq::empty(),
        stage: NetworkRecoveryStage::Lookup,
    }
}

/// Begins to recover a node over direct connections.
pub fn recover_over_network(local: Id32) -> (recovery: NetworkRecovery)
    ensures
        recovery@ == network_recovery_begun(local),
        recovery@.wf(),
{
    NetworkRecovery {
        local,
        asked: Vec::new(),
        states: Vec::new(),
        served: Vec::new(),
        sources: Vec::new(),
        stage: NetworkRecoveryStage::Lookup,
    }
}

proof fn lemma_servers_in_range(served: Seq<ServedCheckpoint>, hash: Id32)
    requires
        served.len() <= usize::MAX,
    ensures
        forall|i: int|
            0 <= i < servers_of(served, hash).len() ==> #[trigger] servers_of(served, hash)[i]
                < served.len(),
    decreases served.len(),
{
    if served.len() > 0 {
        lemma_servers_in_range(served.drop_last(), hash);
        let before = servers_of(served.drop_last(), hash);
        let after = servers_of(served, hash);
        assert forall|i: int| 0 <= i < after.len() implies #[trigger] after[i] < served.len() by {
            if i < before.len() {
                assert(after[i] == before[i]);
            }
        }
    }
}

impl NetworkRecovery {
    pub closed spec fn view(&self) -> NetworkRecoveryModel {
        NetworkRecoveryModel {
            local: self.local,
            asked: self.asked@,
            states: self.states@,
            served: self.served@,
            sources: self.sources@,
            stage: self.stage,
        }
    }

    fn servers_for(&self, place: usize) -> (records: Vec<usize>)
        requires
            self@.wf(),
            place < self@.served.len(),
        ensures
            records@ == self@.servers_for(place as int),
    {
        let places = servers(&self.served, &self.served[place].hash);
        let ghost all = self@.servers_for(place as int);
        proof {
            assert(self.served.len() <= usize::MAX);
            lemma_servers_in_range(self.served@, self.served@[place as int].hash);
        }
        let mut records: Vec<usize> = Vec::new();
        let mut i: usize = 0;
        while i < places.len()
            invariant
                i <= places@.len(),
                self@.wf(),
                places@ == servers_of(self@.served, self@.served[place as int].hash),
                all == self@.servers_for(place as int),
                forall|i: int|
                    0 <= i < places@.len() ==> #[trigger] places@[i] < self@.served.len(),
                records@ == all.take(i as int),
            decreases places@.len() - i,
        {
            records.push(self.sources[places[i]]);
            assert(all.take(i + 1) =~= all.take(i as int).push(all[i as int]));
            i += 1;
        }
        assert(all.take(i as int) =~= all);
        records
    }

    /// What is needed next.
    pub fn next(&self) -> (action: NetworkRecoveryAction)
        requires
            self@.wf(),
        ensures
            action@ == self@.next(),
    {
        match self.stage {
            NetworkRecoveryStage::Lookup => NetworkRecoveryAction::Lookup { subject: self.local },
            NetworkRecoveryStage::Asking(at) => NetworkRecoveryAction::FindState {
                record: self.asked[at],
                asked: self.states[at],
            },
            NetworkRecoveryStage::Shards(place) => NetworkRecoveryAction::RecoverShards {
                record: self.sources[place],
                servers: self.servers_for(place),
            },
            NetworkRecoveryStage::Install(place) => NetworkRecoveryAction::Install {
                record: self.sources[place],
            },
            NetworkRecoveryStage::Restore(place, revision) => NetworkRecoveryAction::Restore {
                record: self.sources[place],
                revision,
            },
            NetworkRecoveryStage::Done(place) => NetworkRecoveryAction::Done {
                record: self.sources[place],
            },
            NetworkRecoveryStage::Failed(error) => NetworkRecoveryAction::Failed(error),
        }
    }

    fn ask(&mut self, at: usize)
        requires
            old(self)@.asked.len() == old(self)@.states.len(),
            old(self)@.served.len() == old(self)@.sources.len(),
        ensures
            final(self)@ == old(self)@.asking(at as int),
            final(self)@.wf(),
    {
        if at < self.asked.len() {
            self.stage = NetworkRecoveryStage::Asking(at);
            return ;
        }
        match newest_served(&self.served) {
            Some(place) => {
                proof {
                    lemma_newest_served(self.served@, place as int);
                }
                self.stage = NetworkRecoveryStage::Shards(place);
            },
            None => {
                self.stage = NetworkRecoveryStage::Failed(NetworkRecoveryError::NothingServed);
            },
        }
    }

    fn take_state(&mut self, at: usize, state: Option<ServedFacts>)
        requires
            old(self)@.wf(),
            old(self)@.stage == NetworkRecoveryStage::Asking(at),
        ensures
            final(self)@ == old(self)@.with_state(at as int, state),
            final(self)@.wf(),
    {
        assert(at < self.asked.len());
        if let Some(state) = state {
            if state.authority {
                self.served.push(
                    ServedCheckpoint {
                        publisher: self.states[at].publisher,
                        generation: state.generation,
                        hash: state.hash,
                    },
                );
                self.sources.push(self.asked[at]);
            }
        }
        self.ask(at + 1);
    }

    /// Takes what came of the last action.
    pub fn take(&mut self, event: NetworkRecoveryEvent)
        requires
            old(self)@.wf(),
        ensures
            final(self)@ == old(self)@.after(event@),
            final(self)@.wf(),
    {
        match (self.stage, event) {
            (NetworkRecoveryStage::Done(_), _) => {},
            (NetworkRecoveryStage::Failed(_), _) => {},
            (_, NetworkRecoveryEvent::Failed) => {
                self.stage = NetworkRecoveryStage::Failed(NetworkRecoveryError::Outside);
            },
            (NetworkRecoveryStage::Lookup, NetworkRecoveryEvent::Records(finds)) => {
                let (asked, states) = find_asked(&finds, &self.local);
                self.asked = asked;
                self.states = states;
                self.ask(0);
            },
            (NetworkRecoveryStage::Asking(at), NetworkRecoveryEvent::State(state)) => {
                self.take_state(at, state);
            },
            (NetworkRecoveryStage::Shards(place), NetworkRecoveryEvent::Recovered) => {
                self.stage = NetworkRecoveryStage::Install(place);
            },
            (NetworkRecoveryStage::Install(place), NetworkRecoveryEvent::Installed(revisions)) => {
                let revision = latest_revision(&revisions, &self.local);
                proof {
                    lemma_latest_place(revisions@, self.local, revision);
                }
                match revision {
                    Some(revision) => {
                        self.stage = NetworkRecoveryStage::Restore(place, revision);
                    },
                    None => {
                        self.stage = NetworkRecoveryStage::Done(place);
                    },
                }
            },
            (NetworkRecoveryStage::Restore(place, _), NetworkRecoveryEvent::Restored) => {
                self.stage = NetworkRecoveryStage::Done(place);
            },
            _ => {
                self.stage = NetworkRecoveryStage::Failed(NetworkRecoveryError::OutOfOrder);
            },
        }
    }
}

/// What is recovered over direct connections is a certified state that a
/// publisher served, and none that was served is newer; once chosen, it stays
/// the one that is recovered.
pub proof fn the_newest_served_state_is_recovered(
    recovery: NetworkRecoveryModel,
    event: NetworkRecoveryEventModel,
    other: int,
)
    requires
        recovery.wf(),
        0 <= other < recovery.served.len(),
    ensures
        recovery.chosen() matches Some(place) ==> recovery.served[other].generation
            <= recovery.served[place as int].generation,
        recovery.chosen() is Some && recovery.after(event).chosen() is Some ==> {
            &&& recovery.after(event).chosen() == recovery.chosen()
            &&& recovery.after(event).served == recovery.served
        },
{
}

/// The publishers that are asked are just those whose record and seal count and
/// who can be called, in the order of their records, each for the state that its
/// record speaks of.
pub proof fn every_publisher_that_counts_is_asked(finds: Seq<DirectoryFind>, local: Id32)
    requires
        finds.len() <= usize::MAX,
    ensures
        ({
            let asked = asked_places(finds, local);
            &&& forall|i: int| 0 <= i < asked.len() ==> #[trigger] asked[i] < finds.len()
            &&& forall|i: int, j: int|
                0 <= i < j < asked.len() ==> #[trigger] asked[i] < #[trigger] asked[j]
            &&& forall|k: int|
                0 <= k < finds.len() ==> (asked.contains(k as usize) <==> {
                    &&& record_counts((#[trigger] finds[k]).record, local)
                    &&& finds[k].opened is Some
                    &&& sealed_counts(finds[k].record, finds[k].opened->0, local)
                    &&& finds[k].callable
                })
            &&& states_at(finds, asked).len() == asked.len()
            &&& forall|i: int|
                0 <= i < asked.len() ==> #[trigger] states_at(finds, asked)[i] == (AskedState {
                    publisher: finds[asked[i] as int].record.publisher,
                    hash: finds[asked[i] as int].record.checkpoint_hash,
                })
        }),
    decreases finds.len(),
{
    if finds.len() > 0 {
        let fewer = finds.drop_last();
        every_publisher_that_counts_is_asked(fewer, local);
        let before = asked_places(fewer, local);
        let after = asked_places(finds, local);
        assert forall|i: int| 0 <= i < after.len() implies #[trigger] after[i] < finds.len() by {
            if i < before.len() {
                assert(after[i] == before[i]);
            }
        }
        assert forall|i: int, j: int| 0 <= i < j < after.len() implies #[trigger] after[i]
            < #[trigger] after[j] by {
            assert(after[i] == before[i]);
            if j < before.len() {
                assert(after[j] == before[j]);
            }
        }
        assert forall|k: int| 0 <= k < finds.len() implies (after.contains(k as usize) <==> {
            &&& record_counts((#[trigger] finds[k]).record, local)
            &&& finds[k].opened is Some
            &&& sealed_counts(finds[k].record, finds[k].opened->0, local)
            &&& finds[k].callable
        }) by {
            if k < fewer.len() {
                assert(fewer[k] == finds[k]);
                if before.contains(k as usize) {
                    let m = choose|m: int| 0 <= m < before.len() && before[m] == k as usize;
                    assert(after[m] == k as usize);
                }
                if after.contains(k as usize) {
                    let m = choose|m: int| 0 <= m < after.len() && after[m] == k as usize;
                    assert(m < before.len());
                    assert(before[m] == k as usize);
                }
            } else {
                if is_asked(finds[k], local) {
                    assert(after[before.len() as int] == k as usize);
                } else if after.contains(k as usize) {
                    let m = choose|m: int| 0 <= m < after.len() && after[m] == k as usize;
                    assert(before[m] < fewer.len());
                }
            }
        }
    }
}

/// A recovery over direct connections looks its records up, asks one publisher
/// after another, and counts what is served with the right that its publisher
/// claims. Behind the last publisher the newest state is recovered from all who
/// served it, or the recovery fails where nobody did; then it is installed, and
/// the latest revision of the node, if it has one, is restored.
pub proof fn a_direct_recovery_asks_and_recovers(
    recovery: NetworkRecoveryModel,
    local: Id32,
    finds: Seq<DirectoryFind>,
    state: Option<ServedFacts>,
    revisions: Seq<RevisionFacts>,
)
    requires
        recovery.wf(),
        recovery.asked.len() <= usize::MAX,
    ensures
        network_recovery_begun(local).next() == (NetworkRecoveryActionModel::Lookup {
            subject: local,
        }),
        recovery.stage is Lookup ==> {
            let after = recovery.after(NetworkRecoveryEventModel::Records(finds));
            &&& after.asked == asked_places(finds, recovery.local)
            &&& after.states == states_at(finds, after.asked)
            &&& after.asked.len() > 0 ==> after.stage == NetworkRecoveryStage::Asking(0)
                && after.next() == (NetworkRecoveryActionModel::FindState {
                record: after.asked[0],
                asked: after.states[0],
            })
            &&& after.asked.len() == 0 && recovery.served.len() == 0 ==> after.next()
                == NetworkRecoveryActionModel::Failed(NetworkRecoveryError::NothingServed)
        },
        recovery.stage matches NetworkRecoveryStage::Asking(at) ==> {
            let after = recovery.after(NetworkRecoveryEventModel::State(state));
            let counts = state is Some && state->0.authority;
            &&& recovery.next() == (NetworkRecoveryActionModel::FindState {
                record: recovery.asked[at as int],
                asked: recovery.states[at as int],
            })
            &&& after.served == (if counts {
                recovery.served.push(
                    ServedCheckpoint {
                        publisher: recovery.states[at as int].publisher,
                        generation: state->0.generation,
                        hash: state->0.hash,
                    },
                )
            } else {
                recovery.served
            })
            &&& after.sources == (if counts {
                recovery.sources.push(recovery.asked[at as int])
            } else {
                recovery.sources
            })
            &&& at + 1 < recovery.asked.len() ==> after.stage == NetworkRecoveryStage::Asking(
                (at + 1) as usize,
            ) && after.next() == (NetworkRecoveryActionModel::FindState {
                record: recovery.asked[at + 1],
                asked: recovery.states[at + 1],
            })
            &&& at + 1 == recovery.asked.len() && after.served.len() == 0 ==> after.next()
                == NetworkRecoveryActionModel::Failed(NetworkRecoveryError::NothingServed)
            &&& at + 1 == recovery.asked.len() && 0 < after.served.len() <= usize::MAX ==> (
            after.stage matches NetworkRecoveryStage::Shards(place) && {
                &&& place < after.served.len()
                &&& forall|k: int|
                    0 <= k < after.served.len() ==> (#[trigger] after.served[k]).generation
                        <= after.served[place as int].generation
                &&& after.next() matches NetworkRecoveryActionModel::RecoverShards {
                    record,
                    servers,
                } && {
                    &&& record == after.sources[place as int]
                    &&& servers == servers_of(
                        after.served,
                        after.served[place as int].hash,
                    ).map_values(|server: usize| after.sources[server as int])
                }
            })
        },
        recovery.stage matches NetworkRecoveryStage::Shards(place) ==> recovery.after(
            NetworkRecoveryEventModel::Recovered,
        ).next() == (NetworkRecoveryActionModel::Install {
            record: recovery.sources[place as int],
        }),
        recovery.stage matches NetworkRecoveryStage::Install(place) ==> {
            let after = recovery.after(NetworkRecoveryEventModel::Installed(revisions));
            match latest_place(revisions, recovery.local) {
                Some(revision) => {
                    &&& after.next() == (NetworkRecoveryActionModel::Restore {
                        record: recovery.sources[place as int],
                        revision: revision as usize,
                    })
                    &&& after.after(NetworkRecoveryEventModel::Restored).next() == (
                    NetworkRecoveryActionModel::Done { record: recovery.sources[place as int] })
                },
                None => after.next() == (NetworkRecoveryActionModel::Done {
                    record: recovery.sources[place as int],
                }),
            }
        },
{
    if let NetworkRecoveryStage::Asking(at) = recovery.stage {
        let after = recovery.after(NetworkRecoveryEventModel::State(state));
        if after.served.len() > 0 {
            crate::direct::lemma_some_newest(after.served);
        }
    }
}

/// What fails, and what was not asked for, ends a recovery.
pub proof fn a_direct_recovery_takes_only_what_it_asked_for(
    recovery: NetworkRecoveryModel,
    event: NetworkRecoveryEventModel,
)
    requires
        recovery.wf(),
    ensures
        recovery.next() is Done || recovery.next() is Failed ==> recovery.after(event) == recovery,
        !(recovery.next() is Done || recovery.next() is Failed) && event is Failed
            ==> recovery.after(event).next() == NetworkRecoveryActionModel::Failed(
            NetworkRecoveryError::Outside,
        ),
        !(event is Failed) && (match recovery.next() {
            NetworkRecoveryActionModel::Lookup { .. } => !(event is Records),
            NetworkRecoveryActionModel::FindState { .. } => !(event is State),
            NetworkRecoveryActionModel::RecoverShards { .. } => !(event is Recovered),
            NetworkRecoveryActionModel::Install { .. } => !(event is Installed),
            NetworkRecoveryActionModel::Restore { .. } => !(event is Restored),
            _ => false,
        }) ==> recovery.after(event).next() == NetworkRecoveryActionModel::Failed(
            NetworkRecoveryError::OutOfOrder,
        ),
{
}

} // verus!
