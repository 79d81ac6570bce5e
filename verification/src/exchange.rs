//! Learning where the members of a guild are: from each other, and from the
//! DHT.

use crate::address::{address_of_text, peer_of_key, peer_text, Component, Multiaddr};
use crate::dht::{
    address_published, endpoint_observations, endpoint_record_counts,
    endpoint_record_observations, endpoints_count, observation_models, published_addresses,
    DhtRecordObservation, ObservationModel, SignedEndpoints,
};
use crate::endpoints::{texts, EndpointLimits};
use crate::hashing::endpoint_key;
use crate::ids::{sort_by_key, sorted_by_key, Id32};
use crate::policy::views;
use crate::publication::{
    all_keyed, each_keyed, is_member, member_key, member_record_key, members_to_ask, other_members,
    publication_expiry, MAX_EXCHANGED_ENDPOINT_RECORDS,
};
use crate::tor::NodeId;
use vstd::prelude::*;

verus! {

/// Where records of endpoints come from.
#[derive(Clone, Copy, Debug, PartialEq, Eq, Structural)]
pub enum EndpointSource {
    /// Members hand out the records that they have.
    Members,
    /// The DHT has the record of each member.
    Dht,
}

/// Why a round did not end well.
#[derive(Clone, Copy, Debug, PartialEq, Eq, Structural)]
pub enum EndpointRoundError {
    /// The node has no endpoint of its own to tell of.
    NoEndpoint,
    /// There is no time until which a record would be good.
    Expiry,
    /// A record names the endpoints of another peer.
    Misbound,
    /// The key of a member is not that of a peer.
    NoIdentity,
    /// Something that was asked for was not had.
    Outside,
    /// What came was not what was asked for.
    OutOfOrder,
}

/// What was found of a publisher, before it is held against what is kept.
#[derive(Debug)]
pub struct EndpointTask {
    pub publisher: Id32,
    pub observations: Vec<DhtRecordObservation>,
}

/// What was found of a publisher, for contracts.
pub struct TaskModel {
    pub publisher: Id32,
    pub observations: Seq<ObservationModel>,
}

impl EndpointTask {
    pub open spec fn view(&self) -> TaskModel {
        TaskModel {
            publisher: self.publisher,
            observations: observation_models(self.observations@),
        }
    }
}

pub open spec fn task_views(tasks: Seq<EndpointTask>) -> Seq<TaskModel> {
    tasks.map_values(|task: EndpointTask| task@)
}

/// Identities, each where it first occurs.
pub open spec fn distinct(ids: Seq<Id32>) -> Seq<Id32>
    decreases ids.len(),
{
    if ids.len() == 0 {
        ids
    } else {
        let before = distinct(ids.drop_last());
        if before.contains(ids.last()) {
            before
        } else {
            before.push(ids.last())
        }
    }
}

fn distinct_ids(ids: &Vec<Id32>) -> (result: Vec<Id32>)
    ensures
        result@ == distinct(ids@),
{
    let mut result: Vec<Id32> = Vec::new();
    let mut i: usize = 0;
    assert(ids@.take(0) =~= Seq::empty());
    while i < ids.len()
        invariant
            i <= ids@.len(),
            result@ == distinct(ids@.take(i as int)),
        decreases ids@.len() - i,
    {
        assert(ids@.take(i + 1).drop_last() =~= ids@.take(i as int));
        if !is_member(&result, &ids[i]) {
            result.push(ids[i]);
        }
        i += 1;
    }
    assert(ids@.take(i as int) =~= ids@);
    result
}

/// The members of an active guild that are asked for what they know: all but
/// the node itself, by identity.
pub open spec fn asked_members(active: bool, members: Seq<Id32>, local: Id32) -> Seq<Id32> {
    if active {
        other_members(distinct(sorted_by_key(members)), local)
    } else {
        Seq::empty()
    }
}

/// The members of an active guild that are looked up.
pub open spec fn looked_up(active: bool, members: Seq<Id32>, local: Id32) -> Seq<Id32> {
    if active {
        other_members(members, local)
    } else {
        Seq::empty()
    }
}

/// What a member handed out of other members, one record after another.
pub open spec fn exchanged_tasks(
    limits: EndpointLimits,
    members: Seq<Id32>,
    records: Seq<SignedEndpoints>,
    now: u64,
) -> Seq<TaskModel>
    decreases records.len(),
{
    if records.len() == 0 {
        Seq::empty()
    } else {
        let before = exchanged_tasks(limits, members, records.drop_last(), now);
        let publisher = records.last().publisher;
        if members.contains(publisher) {
            before.push(
                TaskModel {
                    publisher,
                    observations: endpoint_observations(
                        limits,
                        publisher,
                        seq![Some(records.last())],
                        now,
                    ),
                },
            )
        } else {
            before
        }
    }
}

fn tasks_from(
    limits: &EndpointLimits,
    members: &Vec<Id32>,
    records: Vec<SignedEndpoints>,
    now: u64,
) -> (tasks: Vec<EndpointTask>)
    ensures
        task_views(tasks@) == exchanged_tasks(*limits, members@, records@, now),
{
    let mut remaining = records;
    let ghost all = records@;
    let mut tasks: Vec<EndpointTask> = Vec::new();
    let mut i: usize = 0;
    let count: usize = remaining.len();
    assert(all.take(0) =~= Seq::empty());
    assert(task_views(tasks@) =~= Seq::empty());
    assert(remaining@ =~= all.skip(0));
    while i < count
        invariant
            i <= count == all.len(),
            remaining@ == all.skip(i as int),
            task_views(tasks@) == exchanged_tasks(*limits, members@, all.take(i as int), now),
        decreases count - i,
    {
        let ghost next = all.take(i + 1);
        let ghost before = task_views(tasks@);
        let record = remaining.remove(0);
        proof {
            assert(next.drop_last() =~= all.take(i as int));
            assert(next.last() == record);
            assert(remaining@ =~= all.skip(i + 1));
        }
        let publisher = record.publisher;
        if is_member(members, &publisher) {
            let mut single: Vec<Option<SignedEndpoints>> = Vec::new();
            single.push(Some(record));
            assert(single@ =~= seq![Some(next.last())]);
            let task = EndpointTask {
                publisher,
                observations: endpoint_record_observations(limits, &publisher, &single, now),
            };
            let ghost model = task@;
            tasks.push(task);
            assert(task_views(tasks@) =~= before.push(model));
        }
        i += 1;
    }
    assert(all.take(i as int) =~= all);
    tasks
}

/// How far a round has come.
#[derive(Clone, Copy, Debug)]
pub enum EndpointRoundStage {
    /// The node's own record, good until then, is renewed.
    Renew(u64),
    /// The guild is read.
    Guild,
    /// This member is asked or looked up.
    Asking(usize),
    /// What was found is held against what is kept.
    Observing(usize),
    /// Addresses, good until then, are taken over.
    Applying(usize, u64),
    Done,
    Failed(EndpointRoundError),
}

/// What a round needs next.
#[derive(Debug)]
pub enum EndpointRoundAction {
    Renew { expires_at_unix_seconds: u64 },
    ReadGuild,
    /// Ask a member for the records that it has.
    AskMember { member: Id32 },
    /// Find the record of a member in the DHT, under this key.
    LookUp { member: Id32, key: Vec<u8> },
    /// Observe what was found of a publisher, and select what is current.
    Observe { publisher: Id32 },
    /// Take the addresses of a publisher over.
    Apply { publisher: Id32, expires_at_unix_seconds: u64 },
    Done,
    Failed(EndpointRoundError),
}

/// What a round needs next, as a plain value.
pub enum EndpointRoundActionModel {
    Renew { expires_at_unix_seconds: u64 },
    ReadGuild,
    AskMember { member: Id32 },
    LookUp { member: Id32, key: Seq<u8> },
    Observe { publisher: Id32 },
    Apply { publisher: Id32, expires_at_unix_seconds: u64 },
    Done,
    Failed(EndpointRoundError),
}

impl EndpointRoundAction {
    pub open spec fn view(&self) -> EndpointRoundActionModel {
        match *self {
            EndpointRoundAction::Renew { expires_at_unix_seconds } =>
                EndpointRoundActionModel::Renew { expires_at_unix_seconds },
            EndpointRoundAction::ReadGuild => EndpointRoundActionModel::ReadGuild,
            EndpointRoundAction::AskMember { member } => EndpointRoundActionModel::AskMember {
                member,
            },
            EndpointRoundAction::LookUp { member, key } => EndpointRoundActionModel::LookUp {
                member,
                key: key@,
            },
            EndpointRoundAction::Observe { publisher } => EndpointRoundActionModel::Observe {
                publisher,
            },
            EndpointRoundAction::Apply { publisher, expires_at_unix_seconds } =>
                EndpointRoundActionModel::Apply { publisher, expires_at_unix_seconds },
            EndpointRoundAction::Done => EndpointRoundActionModel::Done,
            EndpointRoundAction::Failed(error) => EndpointRoundActionModel::Failed(error),
        }
    }
}

/// What came of an action.
#[derive(Debug)]
pub enum EndpointRoundEvent {
    Renewed,
    /// The guild, if there is one: whether it is active, and its members.
    Guild { active: bool, members: Vec<Id32> },
    /// The records that a member handed out.
    Exchanged { records: Vec<SignedEndpoints>, now: u64 },
    /// What the DHT has of a member; `None` is what could not be decoded.
    Found { records: Vec<Option<SignedEndpoints>>, now: u64 },
    /// The current record of the publisher, if there is one, and the checksum
    /// of the publisher's onion address.
    Selected { record: Option<SignedEndpoints>, onion_checksum: [u8; 2], now: u64 },
    Applied,
    Failed,
}

/// What came of an action, as a plain value.
pub enum EndpointRoundEventModel {
    Renewed,
    Guild { active: bool, members: Seq<Id32> },
    Exchanged { records: Seq<SignedEndpoints>, now: u64 },
    Found { records: Seq<Option<SignedEndpoints>>, now: u64 },
    Selected { record: Option<SignedEndpoints>, onion_checksum: [u8; 2], now: u64 },
    Applied,
    Failed,
}

impl EndpointRoundEvent {
    pub open spec fn view(&self) -> EndpointRoundEventModel {
        match *self {
            EndpointRoundEvent::Renewed => EndpointRoundEventModel::Renewed,
            EndpointRoundEvent::Guild { active, members } => EndpointRoundEventModel::Guild {
                active,
                members: members@,
            },
            EndpointRoundEvent::Exchanged { records, now } => EndpointRoundEventModel::Exchanged {
                records: records@,
                now,
            },
            EndpointRoundEvent::Found { records, now } => EndpointRoundEventModel::Found {
                records: records@,
                now,
            },
            EndpointRoundEvent::Selected { record, onion_checksum, now } =>
                EndpointRoundEventModel::Selected { record, onion_checksum, now },
            EndpointRoundEvent::Applied => EndpointRoundEventModel::Applied,
            EndpointRoundEvent::Failed => EndpointRoundEventModel::Failed,
        }
    }
}

/// A round over the members of a guild, in which their endpoints are learned.
#[derive(Debug)]
pub struct EndpointRound {
    source: EndpointSource,
    limits: EndpointLimits,
    local: Id32,
    members: Vec<Id32>,
    asked: Vec<Id32>,
    tasks: Vec<EndpointTask>,
    addresses: Vec<Multiaddr>,
    stage: EndpointRoundStage,
}

/// A round over the members of a guild, for contracts.
#[verifier::ext_equal]
pub struct EndpointRoundModel {
    pub source: EndpointSource,
    pub limits: EndpointLimits,
    pub local: Id32,
    /// The members of the guild.
    pub members: Seq<Id32>,
    /// The members that are asked or looked up.
    pub asked: Seq<Id32>,
    /// What was found and is still to be observed; the first is at hand.
    pub tasks: Seq<TaskModel>,
    /// The addresses that are taken over.
    pub addresses: Seq<Seq<Component>>,
    pub stage: EndpointRoundStage,
}

/// What a record that is current is worth.
pub enum RecordWorth {
    /// It does not count.
    Nothing,
    /// It names the endpoints of another peer.
    Misbound,
    Addresses(Seq<Seq<Component>>),
}

/// The addresses that texts spell.
pub open spec fn spelled(values: Seq<Seq<char>>) -> Seq<Seq<Component>> {
    values.map_values(|value: Seq<char>| address_of_text(value)->0)
}

/// Every one of some endpoints is an address of a node.
pub open spec fn all_published(node: NodeId, values: Seq<Seq<char>>) -> bool {
    forall|i: int| 0 <= i < values.len() ==> address_published(node, #[trigger] values[i])
}

impl EndpointRoundModel {
    pub open spec fn wf(self) -> bool {
        &&& (forall|i: int|
            0 <= i < self.asked.len() ==> self.members.contains(#[trigger] self.asked[i])
                && self.asked[i] != self.local)
        &&& (forall|i: int|
            0 <= i < self.tasks.len() ==> self.members.contains(
                (#[trigger] self.tasks[i]).publisher,
            ))
        &&& (self.stage matches EndpointRoundStage::Asking(at) ==> at < self.asked.len()
            && self.tasks.len() == 0)
        &&& (self.stage matches EndpointRoundStage::Observing(at) ==> at < self.asked.len()
            && self.tasks.len() > 0)
        &&& (self.stage matches EndpointRoundStage::Applying(at, _) ==> at < self.asked.len()
            && self.tasks.len() > 0)
        &&& (self.stage is Renew ==> self.source is Members && self.tasks.len() == 0)
        &&& (self.stage is Guild ==> self.tasks.len() == 0)
        &&& (self.source is Dht && !(self.stage is Failed) ==> all_keyed(self.asked))
    }

    /// What is needed next.
    pub open spec fn next(self) -> EndpointRoundActionModel {
        match self.stage {
            EndpointRoundStage::Renew(expires_at_unix_seconds) => EndpointRoundActionModel::Renew {
                expires_at_unix_seconds,
            },
            EndpointRoundStage::Guild => EndpointRoundActionModel::ReadGuild,
            EndpointRoundStage::Asking(at) => match self.source {
                EndpointSource::Members => EndpointRoundActionModel::AskMember {
                    member: self.asked[at as int],
                },
                EndpointSource::Dht => EndpointRoundActionModel::LookUp {
                    member: self.asked[at as int],
                    key: member_key(self.asked[at as int])->0,
                },
            },
            EndpointRoundStage::Observing(_) => EndpointRoundActionModel::Observe {
                publisher: self.tasks[0].publisher,
            },
            EndpointRoundStage::Applying(_, expires_at_unix_seconds) =>
                EndpointRoundActionModel::Apply {
                publisher: self.tasks[0].publisher,
                expires_at_unix_seconds,
            },
            EndpointRoundStage::Done => EndpointRoundActionModel::Done,
            EndpointRoundStage::Failed(error) => EndpointRoundActionModel::Failed(error),
        }
    }

    pub open spec fn failed(self, error: EndpointRoundError) -> EndpointRoundModel {
        EndpointRoundModel { stage: EndpointRoundStage::Failed(error), ..self }
    }

    /// The round at a member, or behind the last.
    pub open spec fn asking(self, at: int) -> EndpointRoundModel {
        EndpointRoundModel {
            stage: if at < self.asked.len() {
                EndpointRoundStage::Asking(at as usize)
            } else {
                EndpointRoundStage::Done
            },
            ..self
        }
    }

    /// The round with what was found at a member.
    pub open spec fn working(self, at: int) -> EndpointRoundModel {
        if self.tasks.len() > 0 {
            EndpointRoundModel { stage: EndpointRoundStage::Observing(at as usize), ..self }
        } else {
            self.asking(at + 1)
        }
    }

    /// The round with what is at hand put aside.
    pub open spec fn advanced(self, at: int) -> EndpointRoundModel {
        EndpointRoundModel { tasks: self.tasks.skip(1), ..self }.working(at)
    }

    /// The round with its guild: whoever is looked up must have an identity.
    pub open spec fn with_guild(self, active: bool, members: Seq<Id32>) -> EndpointRoundModel {
        let read = EndpointRoundModel {
            members,
            asked: match self.source {
                EndpointSource::Members => asked_members(active, members, self.local),
                EndpointSource::Dht => looked_up(active, members, self.local),
            },
            ..self
        };
        if self.source is Dht && !all_keyed(read.asked) {
            read.failed(EndpointRoundError::NoIdentity)
        } else {
            read.asking(0)
        }
    }

    /// The round with what a member handed out: what is too much is as good as
    /// nothing.
    pub open spec fn with_exchanged(
        self,
        at: int,
        records: Seq<SignedEndpoints>,
        now: u64,
    ) -> EndpointRoundModel {
        if records.len() > MAX_EXCHANGED_ENDPOINT_RECORDS {
            self.asking(at + 1)
        } else {
            EndpointRoundModel {
                tasks: exchanged_tasks(self.limits, self.members, records, now),
                ..self
            }.working(at)
        }
    }

    /// The round with what the DHT has of a member.
    pub open spec fn with_found(
        self,
        at: int,
        records: Seq<Option<SignedEndpoints>>,
        now: u64,
    ) -> EndpointRoundModel {
        let publisher = self.asked[at];
        EndpointRoundModel {
            tasks: seq![
                TaskModel {
                    publisher,
                    observations: endpoint_observations(self.limits, publisher, records, now),
                },
            ],
            ..self
        }.working(at)
    }

    /// What a record that is current is worth.
    pub open spec fn worth(
        self,
        record: Option<SignedEndpoints>,
        onion_checksum: [u8; 2],
        now: u64,
    ) -> RecordWorth {
        let publisher = self.tasks[0].publisher;
        let node = NodeId { key: publisher.0, onion_checksum };
        match record {
            None => RecordWorth::Nothing,
            Some(record) => if !endpoints_count(self.limits, publisher, record@, now) {
                RecordWorth::Nothing
            } else if !all_published(node, record@.endpoints) {
                RecordWorth::Misbound
            } else {
                RecordWorth::Addresses(spelled(record@.endpoints))
            },
        }
    }

    /// The round with the record that is current.
    pub open spec fn with_selected(
        self,
        at: int,
        record: Option<SignedEndpoints>,
        onion_checksum: [u8; 2],
        now: u64,
    ) -> EndpointRoundModel {
        match self.worth(record, onion_checksum, now) {
            RecordWorth::Nothing => self.advanced(at),
            RecordWorth::Misbound => self.unapplied(at, EndpointRoundError::Misbound),
            RecordWorth::Addresses(addresses) => EndpointRoundModel {
                addresses,
                stage: EndpointRoundStage::Applying(
                    at as usize,
                    record->0.expires_at_unix_seconds,
                ),
                ..self
            },
        }
    }

    /// The round where addresses were not taken over: what the DHT has of a
    /// member must be usable, and what members tell need not be.
    pub open spec fn unapplied(self, at: int, error: EndpointRoundError) -> EndpointRoundModel {
        match self.source {
            EndpointSource::Members => self.advanced(at),
            EndpointSource::Dht => self.failed(error),
        }
    }

    /// The round after an event.
    pub open spec fn after(self, event: EndpointRoundEventModel) -> EndpointRoundModel {
        match (self.stage, event) {
            (EndpointRoundStage::Done, _) => self,
            (EndpointRoundStage::Failed(_), _) => self,
            (EndpointRoundStage::Renew(_), EndpointRoundEventModel::Renewed) =>
                EndpointRoundModel { stage: EndpointRoundStage::Guild, ..self },
            (EndpointRoundStage::Guild, EndpointRoundEventModel::Guild { active, members }) =>
                self.with_guild(active, members),
            (EndpointRoundStage::Asking(at), EndpointRoundEventModel::Failed) => self.asking(
                at + 1,
            ),
            (
                EndpointRoundStage::Asking(at),
                EndpointRoundEventModel::Exchanged { records, now },
            ) => if self.source is Members {
                self.with_exchanged(at as int, records, now)
            } else {
                self.failed(EndpointRoundError::OutOfOrder)
            },
            (EndpointRoundStage::Asking(at), EndpointRoundEventModel::Found { records, now }) =>
                if self.source is Dht {
                self.with_found(at as int, records, now)
            } else {
                self.failed(EndpointRoundError::OutOfOrder)
            },
            (EndpointRoundStage::Observing(at), EndpointRoundEventModel::Failed) => self.advanced(
                at as int,
            ),
            (
                EndpointRoundStage::Observing(at),
                EndpointRoundEventModel::Selected { record, onion_checksum, now },
            ) => self.with_selected(at as int, record, onion_checksum, now),
            (EndpointRoundStage::Applying(at, _), EndpointRoundEventModel::Applied) =>
                self.advanced(at as int),
            (EndpointRoundStage::Applying(at, _), EndpointRoundEventModel::Failed) =>
                self.unapplied(at as int, EndpointRoundError::Outside),
            (_, EndpointRoundEventModel::Failed) => self.failed(EndpointRoundError::Outside),
            _ => self.failed(EndpointRoundError::OutOfOrder),
        }
    }
}

/// A round that has just begun.
pub open spec fn round_begun(
    source: EndpointSource,
    limits: EndpointLimits,
    local: Id32,
    stage: EndpointRoundStage,
) -> EndpointRoundModel {
    EndpointRoundModel {
        source,
        limits,
        local,
        members: Seq::empty(),
        asked: Seq::empty(),
        tasks: Seq::empty(),
        addresses: Seq::empty(),
        stage,
    }
}

/// Begins a round in which the members of the guild tell each other what they
/// know. The node must have an endpoint of its own to tell of.
pub fn exchange_guild_endpoints_once(
    limits: EndpointLimits,
    local: Id32,
    endpoints: &Vec<String>,
    now: u64,
) -> (round: Result<EndpointRound, EndpointRoundError>)
    ensures
        match round {
            Ok(round) => {
                &&& endpoints@.len() > 0
                &&& now + crate::book::DHT_TTL_SECONDS <= u64::MAX
                &&& round@ == round_begun(
                    EndpointSource::Members,
                    limits,
                    local,
                    EndpointRoundStage::Renew((now + crate::book::DHT_TTL_SECONDS) as u64),
                )
                &&& round@.wf()
            },
            Err(error) => error == (if endpoints@.len() == 0 {
                EndpointRoundError::NoEndpoint
            } else {
                EndpointRoundError::Expiry
            }) && (endpoints@.len() > 0 ==> now + crate::book::DHT_TTL_SECONDS > u64::MAX),
        },
{
    if endpoints.len() == 0 {
        return Err(EndpointRoundError::NoEndpoint);
    }
    match publication_expiry(now) {
        None => Err(EndpointRoundError::Expiry),
        Some(expires) => Ok(
            EndpointRound::begin(
                EndpointSource::Members,
                limits,
                local,
                EndpointRoundStage::Renew(expires),
            ),
        ),
    }
}

/// Begins a round in which the endpoints of the members are looked up in the
/// DHT.
pub fn refresh_guild_endpoints(limits: EndpointLimits, local: Id32) -> (round: EndpointRound)
    ensures
        round@ == round_begun(EndpointSource::Dht, limits, local, EndpointRoundStage::Guild),
        round@.wf(),
{
    EndpointRound::begin(EndpointSource::Dht, limits, local, EndpointRoundStage::Guild)
}

proof fn lemma_others(members: Seq<Id32>, local: Id32)
    ensures
        forall|i: int|
            0 <= i < other_members(members, local).len() ==> members.contains(
                #[trigger] other_members(members, local)[i],
            ) && other_members(members, local)[i] != local,
    decreases members.len(),
{
    if members.len() > 0 {
        let head = members.drop_last();
        let before = other_members(head, local);
        lemma_others(head, local);
        assert forall|i: int| 0 <= i < other_members(members, local).len() implies members.contains(
            #[trigger] other_members(members, local)[i],
        ) && other_members(members, local)[i] != local by {
            if i < before.len() {
                assert(head.contains(before[i]));
                let k = choose|k: int| 0 <= k < head.len() && head[k] == before[i];
                assert(members[k] == before[i]);
            } else {
                assert(members[members.len() - 1] == members.last());
            }
        }
    }
}

proof fn lemma_distinct(ids: Seq<Id32>)
    ensures
        forall|i: int| 0 <= i < distinct(ids).len() ==> ids.contains(#[trigger] distinct(ids)[i]),
    decreases ids.len(),
{
    if ids.len() > 0 {
        let head = ids.drop_last();
        lemma_distinct(head);
        assert forall|i: int| 0 <= i < distinct(ids).len() implies ids.contains(
            #[trigger] distinct(ids)[i],
        ) by {
            let before = distinct(head);
            if i < before.len() {
                assert(head.contains(before[i]));
                let k = choose|k: int| 0 <= k < head.len() && head[k] == before[i];
                assert(ids[k] == before[i]);
            } else {
                assert(ids[ids.len() - 1] == ids.last());
            }
        }
    }
}

proof fn lemma_asked(active: bool, members: Seq<Id32>, local: Id32)
    ensures
        forall|i: int|
            0 <= i < asked_members(active, members, local).len() ==> members.contains(
                #[trigger] asked_members(active, members, local)[i],
            ) && asked_members(active, members, local)[i] != local,
{
    broadcast use vstd::seq_lib::group_to_multiset_ensures;

    if active {
        let sorted = sorted_by_key(members);
        let once = distinct(sorted);
        lemma_others(once, local);
        lemma_distinct(sorted);
        crate::ids::sorting_permutes_and_orders(members);
        assert forall|i: int| 0 <= i < other_members(once, local).len() implies members.contains(
            #[trigger] other_members(once, local)[i],
        ) by {
            let member = other_members(once, local)[i];
            assert(once.contains(member));
            let k = choose|k: int| 0 <= k < once.len() && once[k] == member;
            assert(sorted.contains(once[k]));
            assert(sorted.to_multiset().count(member) > 0);
            assert(members.to_multiset().count(member) > 0);
        }
    }
}

proof fn lemma_tasks_of_members(
    limits: EndpointLimits,
    members: Seq<Id32>,
    records: Seq<SignedEndpoints>,
    now: u64,
)
    ensures
        forall|i: int|
            0 <= i < exchanged_tasks(limits, members, records, now).len() ==> members.contains(
                (#[trigger] exchanged_tasks(limits, members, records, now)[i]).publisher,
            ),
    decreases records.len(),
{
    if records.len() > 0 {
        let before = exchanged_tasks(limits, members, records.drop_last(), now);
        let tasks = exchanged_tasks(limits, members, records, now);
        lemma_tasks_of_members(limits, members, records.drop_last(), now);
        assert forall|i: int| 0 <= i < tasks.len() implies members.contains(
            (#[trigger] tasks[i]).publisher,
        ) by {
            if i < before.len() {
                assert(tasks[i] == before[i]);
            }
        }
    }
}

impl EndpointRound {
    pub closed spec fn view(&self) -> EndpointRoundModel {
        EndpointRoundModel {
            source: self.source,
            limits: self.limits,
            local: self.local,
            members: self.members@,
            asked: self.asked@,
            tasks: task_views(self.tasks@),
            addresses: views(self.addresses@),
            stage: self.stage,
        }
    }

    fn begin(
        source: EndpointSource,
        limits: EndpointLimits,
        local: Id32,
        stage: EndpointRoundStage,
    ) -> (round: Self)
        ensures
            round@ == round_begun(source, limits, local, stage),
    {
        let round = EndpointRound {
            source,
            limits,
            local,
            members: Vec::new(),
            asked: Vec::new(),
            tasks: Vec::new(),
            addresses: Vec::new(),
            stage,
        };
        assert(round@ =~= round_begun(source, limits, local, stage));
        round
    }

    /// What is needed next.
    pub fn next(&self) -> (action: EndpointRoundAction)
        requires
            self@.wf(),
        ensures
            action@ == self@.next(),
    {
        assert(self@.tasks.len() == self.tasks@.len());
        match self.stage {
            EndpointRoundStage::Renew(expires_at_unix_seconds) => EndpointRoundAction::Renew {
                expires_at_unix_seconds,
            },
            EndpointRoundStage::Guild => EndpointRoundAction::ReadGuild,
            EndpointRoundStage::Asking(at) => match self.source {
                EndpointSource::Members => EndpointRoundAction::AskMember {
                    member: self.asked[at],
                },
                EndpointSource::Dht => {
                    let member = self.asked[at];
                    assert(member_key(self@.asked[at as int]) is Some);
                    match member_record_key(&member) {
                        Some(key) => EndpointRoundAction::LookUp { member, key },
                        None => EndpointRoundAction::Failed(EndpointRoundError::NoIdentity),
                    }
                },
            },
            EndpointRoundStage::Observing(_) => EndpointRoundAction::Observe {
                publisher: self.tasks[0].publisher,
            },
            EndpointRoundStage::Applying(_, expires_at_unix_seconds) =>
                EndpointRoundAction::Apply {
                publisher: self.tasks[0].publisher,
                expires_at_unix_seconds,
            },
            EndpointRoundStage::Done => EndpointRoundAction::Done,
            EndpointRoundStage::Failed(error) => EndpointRoundAction::Failed(error),
        }
    }

    /// What was found and is still to be observed; the first is at hand.
    pub fn tasks(&self) -> (tasks: &Vec<EndpointTask>)
        ensures
            task_views(tasks@) == self@.tasks,
    {
        &self.tasks
    }

    /// The addresses that are taken over.
    pub fn addresses(&self) -> (addresses: &Vec<Multiaddr>)
        ensures
            views(addresses@) == self@.addresses,
    {
        &self.addresses
    }

    fn fail(&mut self, error: EndpointRoundError)
        ensures
            final(self)@ == old(self)@.failed(error),
    {
        self.stage = EndpointRoundStage::Failed(error);
    }

    fn go_to(&mut self, at: usize)
        ensures
            final(self)@ == old(self)@.asking(at as int),
    {
        if at < self.asked.len() {
            self.stage = EndpointRoundStage::Asking(at);
        } else {
            self.stage = EndpointRoundStage::Done;
        }
    }

    fn work(&mut self, at: usize)
        requires
            at < old(self)@.asked.len(),
        ensures
            final(self)@ == old(self)@.working(at as int),
    {
        assert(self@.tasks.len() == self.tasks@.len());
        if self.tasks.len() > 0 {
            self.stage = EndpointRoundStage::Observing(at);
        } else {
            assert(at < self.asked.len());
            self.go_to(at + 1);
        }
    }

    fn advance(&mut self, at: usize)
        requires
            old(self)@.wf(),
            at < old(self)@.asked.len(),
            old(self)@.tasks.len() > 0,
            !(old(self)@.stage is Failed),
        ensures
            final(self)@ == old(self)@.advanced(at as int),
            final(self)@.wf(),
    {
        let ghost before = self@;
        assert(self@.tasks.len() == self.tasks@.len());
        let ghost tasks = self.tasks@;
        let _ = self.tasks.remove(0);
        assert(task_views(self.tasks@) =~= before.tasks.skip(1));
        let ghost middle = self@;
        assert(middle =~= EndpointRoundModel { tasks: before.tasks.skip(1), ..before });
        self.work(at);
        assert forall|i: int| 0 <= i < self@.tasks.len() implies self@.members.contains(
            (#[trigger] self@.tasks[i]).publisher,
        ) by {
            assert(before.members.contains(before.tasks[i + 1].publisher));
        }
    }

    fn give_up(&mut self, at: usize, error: EndpointRoundError)
        requires
            old(self)@.wf(),
            at < old(self)@.asked.len(),
            old(self)@.tasks.len() > 0,
            !(old(self)@.stage is Failed),
        ensures
            final(self)@ == old(self)@.unapplied(at as int, error),
            final(self)@.wf(),
    {
        match self.source {
            EndpointSource::Members => {
                self.advance(at);
            },
            EndpointSource::Dht => {
                self.fail(error);
            },
        }
    }

    fn take_guild(&mut self, active: bool, members: Vec<Id32>)
        requires
            old(self)@.wf(),
            old(self)@.stage is Guild,
        ensures
            final(self)@ == old(self)@.with_guild(active, members@),
            final(self)@.wf(),
    {
        let ghost all = members@;
        let asked = match self.source {
            EndpointSource::Members => {
                let mut copy: Vec<Id32> = Vec::new();
                crate::commit::push_copies(&mut copy, &members);
                assert(copy@ =~= all);
                let once = distinct_ids(&sort_by_key(copy));
                members_to_ask(active, &once, &self.local)
            },
            EndpointSource::Dht => members_to_ask(active, &members, &self.local),
        };
        proof {
            lemma_asked(active, all, self.local);
            lemma_others(all, self.local);
        }
        self.asked = asked;
        self.members = members;
        if let EndpointSource::Dht = self.source {
            if !each_keyed(&self.asked) {
                self.fail(EndpointRoundError::NoIdentity);
                return ;
            }
        }
        self.go_to(0);
    }

    fn take_exchanged(&mut self, at: usize, records: Vec<SignedEndpoints>, now: u64)
        requires
            old(self)@.wf(),
            old(self)@.stage == EndpointRoundStage::Asking(at),
        ensures
            final(self)@ == old(self)@.with_exchanged(at as int, records@, now),
            final(self)@.wf(),
    {
        if records.len() > MAX_EXCHANGED_ENDPOINT_RECORDS {
            assert(at < self.asked.len());
            self.go_to(at + 1);
            return ;
        }
        proof {
            lemma_tasks_of_members(self.limits, self.members@, records@, now);
        }
        self.tasks = tasks_from(&self.limits, &self.members, records, now);
        self.work(at);
    }

    fn take_found(&mut self, at: usize, records: Vec<Option<SignedEndpoints>>, now: u64)
        requires
            old(self)@.wf(),
            old(self)@.stage == EndpointRoundStage::Asking(at),
        ensures
            final(self)@ == old(self)@.with_found(at as int, records@, now),
            final(self)@.wf(),
    {
        let publisher = self.asked[at];
        let observations = endpoint_record_observations(&self.limits, &publisher, &records, now);
        let task = EndpointTask { publisher, observations };
        let ghost model = task@;
        let mut tasks: Vec<EndpointTask> = Vec::new();
        tasks.push(task);
        assert(task_views(tasks@) =~= seq![model]);
        self.tasks = tasks;
        self.work(at);
    }

    fn take_selected(
        &mut self,
        at: usize,
        record: Option<SignedEndpoints>,
        onion_checksum: [u8; 2],
        now: u64,
    )
        requires
            old(self)@.wf(),
            old(self)@.stage == EndpointRoundStage::Observing(at),
        ensures
            final(self)@ == old(self)@.with_selected(at as int, record, onion_checksum, now),
            final(self)@.wf(),
    {
        assert(self@.tasks.len() == self.tasks@.len());
        let publisher = self.tasks[0].publisher;
        assert(self@.tasks[0].publisher == publisher);
        let record = match record {
            Some(record) => record,
            None => {
                self.advance(at);
                return ;
            },
        };
        if !endpoint_record_counts(&self.limits, &publisher, &record, now) {
            self.advance(at);
            return ;
        }
        let node = NodeId { key: publisher.0, onion_checksum };
        let ghost values = record@.endpoints;
        match published_addresses(&node, &record.endpoints) {
            Some(addresses) => {
                proof {
                    assert forall|i: int| 0 <= i < values.len() implies address_published(
                        node,
                        #[trigger] values[i],
                    ) by {
                        assert(values[i] == record.endpoints@[i]@);
                    }
                    assert(views(addresses@) =~= spelled(values)) by {
                        assert forall|i: int| 0 <= i < values.len() implies views(addresses@)[i]
                            == #[trigger] spelled(values)[i] by {
                            assert(values[i] == record.endpoints@[i]@);
                        }
                    }
                }
                self.addresses = addresses;
                self.stage = EndpointRoundStage::Applying(at, record.expires_at_unix_seconds);
            },
            None => {
                proof {
                    let i = choose|i: int|
                        0 <= i < record.endpoints@.len() && !address_published(
                            node,
                            #[trigger] record.endpoints@[i]@,
                        );
                    assert(values[i] == record.endpoints@[i]@);
                    assert(!all_published(node, values));
                }
                self.give_up(at, EndpointRoundError::Misbound);
            },
        }
    }

    /// Takes what came of the last action.
    pub fn take(&mut self, event: EndpointRoundEvent)
        requires
            old(self)@.wf(),
        ensures
            final(self)@ == old(self)@.after(event@),
            final(self)@.wf(),
    {
        match (self.stage, event) {
            (EndpointRoundStage::Done, _) => {},
            (EndpointRoundStage::Failed(_), _) => {},
            (EndpointRoundStage::Renew(_), EndpointRoundEvent::Renewed) => {
                self.stage = EndpointRoundStage::Guild;
            },
            (EndpointRoundStage::Guild, EndpointRoundEvent::Guild { active, members }) => {
                self.take_guild(active, members);
            },
            (EndpointRoundStage::Asking(at), EndpointRoundEvent::Failed) => {
                assert(at < self.asked.len());
                self.go_to(at + 1);
            },
            (EndpointRoundStage::Asking(at), EndpointRoundEvent::Exchanged { records, now }) => {
                match self.source {
                    EndpointSource::Members => {
                        self.take_exchanged(at, records, now);
                    },
                    EndpointSource::Dht => {
                        self.fail(EndpointRoundError::OutOfOrder);
                    },
                }
            },
            (EndpointRoundStage::Asking(at), EndpointRoundEvent::Found { records, now }) => {
                match self.source {
                    EndpointSource::Members => {
                        self.fail(EndpointRoundError::OutOfOrder);
                    },
                    EndpointSource::Dht => {
                        self.take_found(at, records, now);
                    },
                }
            },
            (EndpointRoundStage::Observing(at), EndpointRoundEvent::Failed) => {
                self.advance(at);
            },
            (
                EndpointRoundStage::Observing(at),
                EndpointRoundEvent::Selected { record, onion_checksum, now },
            ) => {
                self.take_selected(at, record, onion_checksum, now);
            },
            (EndpointRoundStage::Applying(at, _), EndpointRoundEvent::Applied) => {
                self.advance(at);
            },
            (EndpointRoundStage::Applying(at, _), EndpointRoundEvent::Failed) => {
                self.give_up(at, EndpointRoundError::Outside);
            },
            (_, EndpointRoundEvent::Failed) => {
                self.fail(EndpointRoundError::Outside);
            },
            _ => {
                self.fail(EndpointRoundError::OutOfOrder);
            },
        }
    }
}

/// Only members of the guild are asked, and never the node itself; and only the
/// addresses of members are taken over, whoever handed them out, and only from
/// records that count. A member is looked up under the key of its endpoints.
pub proof fn only_members_are_learned_of(round: EndpointRoundModel, event: EndpointRoundEventModel)
    requires
        round.wf(),
    ensures
        round.next() matches EndpointRoundActionModel::AskMember { member } ==> round.members.contains(
            member,
        ) && member != round.local,
        round.next() matches EndpointRoundActionModel::LookUp { member, key } ==> round.members.contains(
            member,
        ) && member != round.local && member_key(member) == Some(key),
        round.next() matches EndpointRoundActionModel::Apply { publisher, .. }
            ==> round.members.contains(publisher),
        round.after(event).stage is Applying && !(round.stage is Applying) ==> {
            &&& event matches EndpointRoundEventModel::Selected { record, now, .. }
            &&& record is Some
            &&& endpoints_count(round.limits, round.tasks[0].publisher, record->0@, now)
            &&& round.after(event).tasks[0].publisher == round.tasks[0].publisher
        },
{
}

/// The members that are asked are those of an active guild, but not the node
/// itself, each once; of a guild that is not active nobody is asked.
pub proof fn every_other_member_is_asked(active: bool, members: Seq<Id32>, local: Id32)
    ensures
        forall|id: Id32| #[trigger]
            asked_members(active, members, local).contains(id) <==> active && members.contains(id)
                && id != local,
        forall|i: int, j: int|
            0 <= i < j < asked_members(active, members, local).len() ==> asked_members(
                active,
                members,
                local,
            )[i] != asked_members(active, members, local)[j],
        forall|id: Id32| #[trigger]
            looked_up(active, members, local).contains(id) <==> active && members.contains(id) && id
                != local,
        looked_up(true, members, local) == members.filter(|id: Id32| id != local),
{
    broadcast use vstd::seq_lib::group_to_multiset_ensures;

    let sorted = sorted_by_key(members);
    crate::ids::sorting_permutes_and_orders(members);
    lemma_distinct_exactly(sorted);
    lemma_others_exactly(distinct(sorted), local);
    lemma_others_exactly(members, local);
    assert forall|id: Id32| #[trigger] sorted.contains(id) == members.contains(id) by {
        assert(sorted.contains(id) <==> sorted.to_multiset().count(id) > 0);
        assert(members.contains(id) <==> members.to_multiset().count(id) > 0);
    }
}

proof fn lemma_distinct_exactly(ids: Seq<Id32>)
    ensures
        forall|id: Id32| #[trigger] distinct(ids).contains(id) == ids.contains(id),
        distinct(ids).no_duplicates(),
    decreases ids.len(),
{
    if ids.len() > 0 {
        let fewer = ids.drop_last();
        lemma_distinct_exactly(fewer);
        let before = distinct(fewer);
        let after = distinct(ids);
        assert forall|id: Id32| #[trigger] after.contains(id) == ids.contains(id) by {
            if after.contains(id) {
                let k = choose|k: int| 0 <= k < after.len() && after[k] == id;
                if k < before.len() {
                    assert(before[k] == id);
                    assert(before.contains(id));
                    let m = choose|m: int| 0 <= m < fewer.len() && fewer[m] == id;
                    assert(ids[m] == id);
                } else {
                    assert(ids[ids.len() - 1] == id);
                }
            }
            if ids.contains(id) {
                let k = choose|k: int| 0 <= k < ids.len() && ids[k] == id;
                if k < fewer.len() {
                    assert(fewer[k] == id);
                    assert(before.contains(id));
                    let m = choose|m: int| 0 <= m < before.len() && before[m] == id;
                    assert(after[m] == id);
                } else if before.contains(id) {
                    let m = choose|m: int| 0 <= m < before.len() && before[m] == id;
                    assert(after[m] == id);
                } else {
                    assert(after[before.len() as int] == id);
                }
            }
        }
    }
}

proof fn lemma_others_exactly(members: Seq<Id32>, local: Id32)
    ensures
        other_members(members, local) == members.filter(|id: Id32| id != local),
        forall|id: Id32| #[trigger]
            other_members(members, local).contains(id) <==> members.contains(id) && id != local,
        members.no_duplicates() ==> other_members(members, local).no_duplicates(),
    decreases members.len(),
{
    reveal(Seq::filter);
    if members.len() > 0 {
        let fewer = members.drop_last();
        lemma_others_exactly(fewer, local);
        let before = other_members(fewer, local);
        let after = other_members(members, local);
        assert forall|id: Id32| #[trigger] after.contains(id) <==> members.contains(id) && id
            != local by {
            if after.contains(id) {
                let k = choose|k: int| 0 <= k < after.len() && after[k] == id;
                if k < before.len() {
                    assert(before[k] == id);
                    assert(before.contains(id));
                    let m = choose|m: int| 0 <= m < fewer.len() && fewer[m] == id;
                    assert(members[m] == id);
                } else {
                    assert(members[members.len() - 1] == id);
                }
            }
            if members.contains(id) && id != local {
                let k = choose|k: int| 0 <= k < members.len() && members[k] == id;
                if k < fewer.len() {
                    assert(fewer[k] == id);
                    assert(before.contains(id));
                    let m = choose|m: int| 0 <= m < before.len() && before[m] == id;
                    assert(after[m] == id);
                } else {
                    assert(after[before.len() as int] == id);
                }
            }
        }
        if members.no_duplicates() {
            assert(!fewer.contains(members.last())) by {
                if fewer.contains(members.last()) {
                    let k = choose|k: int| 0 <= k < fewer.len() && fewer[k] == members.last();
                    assert(members[k] == members[members.len() - 1]);
                }
            }
            assert(!before.contains(members.last()));
            assert forall|i: int, j: int|
                0 <= i < after.len() && 0 <= j < after.len() && i != j implies after[i]
                != after[j] by {
                if i == before.len() {
                    assert(before.contains(before[j]));
                } else if j == before.len() {
                    assert(before.contains(before[i]));
                }
            }
        }
    }
}

/// The keys of all these nodes are those of peers.
pub open spec fn are_peers(nodes: Seq<Id32>) -> bool {
    forall|i: int| 0 <= i < nodes.len() ==> peer_of_key((#[trigger] nodes[i])@) is Some
}

/// A round reads its guild and asks one member after another, or looks it up
/// under the key of its endpoints; a member whose key is none ends a round over
/// the DHT. More than sixty-four records are as good as none. What was found is
/// observed, one publisher after another, and then the next member is asked.
pub proof fn a_round_asks_one_member_after_another(
    round: EndpointRoundModel,
    active: bool,
    members: Seq<Id32>,
    told: Seq<SignedEndpoints>,
    found: Seq<Option<SignedEndpoints>>,
    now: u64,
)
    requires
        round.wf(),
        round.asked.len() <= usize::MAX,
    ensures
        round.stage is Renew ==> round.after(EndpointRoundEventModel::Renewed).next() is ReadGuild,
        round.stage is Guild ==> {
            let after = round.after(EndpointRoundEventModel::Guild { active, members });
            let asked = if round.source is Members {
                asked_members(active, members, round.local)
            } else {
                looked_up(active, members, round.local)
            };
            let keyed = are_peers(asked);
            &&& after.members == members && after.asked == asked
            &&& round.source is Dht && !keyed ==> after.next() == EndpointRoundActionModel::Failed(
                EndpointRoundError::NoIdentity,
            )
            &&& !(round.source is Dht && !keyed) && asked.len() == 0 ==> after.next() is Done
            &&& round.source is Members && asked.len() > 0 ==> after.next() == (
            EndpointRoundActionModel::AskMember { member: asked[0] })
            &&& round.source is Dht && keyed && asked.len() > 0 ==> after.next() == (
            EndpointRoundActionModel::LookUp {
                member: asked[0],
                key: endpoint_key(peer_text(peer_of_key(asked[0]@)->0)),
            })
        },
        round.stage matches EndpointRoundStage::Asking(at) ==> {
            let failed = round.after(EndpointRoundEventModel::Failed);
            let exchanged = round.after(EndpointRoundEventModel::Exchanged { records: told, now });
            let looked = round.after(EndpointRoundEventModel::Found { records: found, now });
            let further = |next: EndpointRoundModel|
                if at + 1 < round.asked.len() {
                    next.stage == EndpointRoundStage::Asking((at + 1) as usize)
                } else {
                    next.stage is Done
                };
            &&& further(failed)
            &&& round.source is Members ==> {
                &&& round.next() == (EndpointRoundActionModel::AskMember {
                    member: round.asked[at as int],
                })
                &&& told.len() > 64 ==> further(exchanged)
                &&& told.len() <= 64 && exchanged.tasks.len() == 0 ==> further(exchanged)
                &&& told.len() <= 64 ==> exchanged.tasks == exchanged_tasks(
                    round.limits,
                    round.members,
                    told,
                    now,
                )
                &&& told.len() <= 64 && exchanged.tasks.len() > 0 ==> exchanged.next() == (
                EndpointRoundActionModel::Observe { publisher: exchanged.tasks[0].publisher })
            }
            &&& round.source is Dht ==> {
                &&& round.next() matches EndpointRoundActionModel::LookUp { member, key } && member
                    == round.asked[at as int] && member_key(member) == Some(key)
                &&& looked.tasks.len() == 1
                &&& looked.tasks[0].publisher == round.asked[at as int]
                &&& looked.tasks[0].observations == endpoint_observations(
                    round.limits,
                    round.asked[at as int],
                    found,
                    now,
                )
                &&& looked.next() == (EndpointRoundActionModel::Observe {
                    publisher: round.asked[at as int],
                })
            }
        },
{
    let asked = if round.source is Members {
        asked_members(active, members, round.local)
    } else {
        looked_up(active, members, round.local)
    };
    let keyed = are_peers(asked);
    if keyed {
        assert forall|i: int| 0 <= i < asked.len() implies member_key(#[trigger] asked[i]) is Some by {
            assert(peer_of_key(asked[i]@) is Some);
        }
        assert(all_keyed(asked));
        if asked.len() > 0 {
            assert(member_key(asked[0]) is Some);
        }
    } else {
        let i = choose|i: int| 0 <= i < asked.len() && peer_of_key((#[trigger] asked[i])@) is None;
        assert(member_key(asked[i]) is None);
        assert(!all_keyed(asked));
    }
    if round.stage is Guild {
        let after = round.after(EndpointRoundEventModel::Guild { active, members });
        assert(after.asked == asked);
        assert(after == round.with_guild(active, members));
        if round.source is Dht && keyed && asked.len() > 0 {
            assert(after.stage == EndpointRoundStage::Asking(0));
            assert(after.next() == (EndpointRoundActionModel::LookUp {
                member: asked[0],
                key: member_key(asked[0])->0,
            }));
        }
    }
}

/// What is current of a publisher is taken over if it counts and all its
/// endpoints are the publisher's own; else it is put aside. Over the DHT what is
/// not the publisher's own, or cannot be taken over, ends the round; among
/// members it is put aside, too.
pub proof fn what_is_current_is_taken_over(
    round: EndpointRoundModel,
    record: Option<SignedEndpoints>,
    onion_checksum: [u8; 2],
    now: u64,
)
    requires
        round.wf(),
    ensures
        ({
            let publisher = round.tasks[0].publisher;
            let node = NodeId { key: publisher.0, onion_checksum };
            let selected = round.after(
                EndpointRoundEventModel::Selected { record, onion_checksum, now },
            );
            let counts = record is Some && endpoints_count(
                round.limits,
                publisher,
                record->0@,
                now,
            );
            let own = counts && forall|i: int|
                0 <= i < record->0@.endpoints.len() ==> address_published(
                    node,
                    #[trigger] record->0@.endpoints[i],
                );
            &&& round.stage is Observing && own ==> {
                &&& selected.next() == (EndpointRoundActionModel::Apply {
                    publisher,
                    expires_at_unix_seconds: record->0.expires_at_unix_seconds,
                })
                &&& selected.addresses.len() == record->0@.endpoints.len()
                &&& forall|i: int|
                    0 <= i < selected.addresses.len() ==> Some(#[trigger] selected.addresses[i])
                        == address_of_text(record->0@.endpoints[i])
            }
            &&& round.stage is Observing && !counts ==> selected.tasks == round.tasks.skip(1)
                && !(selected.stage is Applying) && !(selected.stage is Failed)
            &&& round.stage is Observing && counts && !own && round.source is Dht
                ==> selected.next() == EndpointRoundActionModel::Failed(
                EndpointRoundError::Misbound,
            )
            &&& round.stage is Observing && counts && !own && round.source is Members
                ==> selected.tasks == round.tasks.skip(1) && !(selected.stage is Failed)
        }),
        round.stage is Applying ==> {
            let applied = round.after(EndpointRoundEventModel::Applied);
            let failed = round.after(EndpointRoundEventModel::Failed);
            &&& applied.tasks == round.tasks.skip(1) && !(applied.stage is Failed)
            &&& round.source is Dht ==> failed.next() == EndpointRoundActionModel::Failed(
                EndpointRoundError::Outside,
            )
            &&& round.source is Members ==> failed.tasks == round.tasks.skip(1) && !(failed.stage
                is Failed)
        },
{
    if round.stage is Observing && record is Some {
        let publisher = round.tasks[0].publisher;
        let node = NodeId { key: publisher.0, onion_checksum };
        let values = record->0@.endpoints;
        if all_published(node, values) {
            assert forall|i: int| 0 <= i < values.len() implies address_published(
                node,
                #[trigger] values[i],
            ) by {}
        }
    }
}

/// Of what a member handed out, just the records of members are looked at, in
/// order, each on its own.
pub proof fn only_records_of_members_are_looked_at(
    limits: EndpointLimits,
    members: Seq<Id32>,
    records: Seq<SignedEndpoints>,
    now: u64,
)
    ensures
        exchanged_tasks(limits, members, records, now) == records.filter(
            |record: SignedEndpoints| members.contains(record.publisher),
        ).map_values(
            |record: SignedEndpoints|
                TaskModel {
                    publisher: record.publisher,
                    observations: endpoint_observations(
                        limits,
                        record.publisher,
                        seq![Some(record)],
                        now,
                    ),
                },
        ),
    decreases records.len(),
{
    reveal(Seq::filter);
    let test = |record: SignedEndpoints| members.contains(record.publisher);
    let task = |record: SignedEndpoints|
        TaskModel {
            publisher: record.publisher,
            observations: endpoint_observations(
                limits,
                record.publisher,
                seq![Some(record)],
                now,
            ),
        };
    if records.len() > 0 {
        only_records_of_members_are_looked_at(limits, members, records.drop_last(), now);
        let before = records.drop_last().filter(test);
        if test(records.last()) {
            assert(before.push(records.last()).map_values(task) =~= before.map_values(task).push(
                task(records.last()),
            ));
        }
    } else {
        assert(records.filter(test).map_values(task) =~= Seq::empty());
    }
}

} // verus!
