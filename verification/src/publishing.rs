//! One pass of publication: a node puts its records out, and learns who stands
//! behind its own state.

use crate::book::DHT_TTL_SECONDS;
use crate::dht::{bundle_numbers, endpoint_numbers, SequenceError, SignedBundle, SignedEndpoints};
use crate::endpoints::texts;
use crate::hashing::{
    bundle_key, endpoint_key, endpoint_record_key, mailbox_key, recovery_bundle_key,
    recovery_mailbox_key,
};
use crate::ids::Id32;
use crate::publication::{
    endpoint_sequence_floor, next_number, others, providers_to_ask, publication_expiry,
    recovery_sequence_floor, ProviderAnswer, ProviderRound, RoundModel,
};
use vstd::prelude::*;

verus! {

/// Why a pass ended early.
#[derive(Clone, Copy, Debug, PartialEq, Eq, Structural)]
pub enum PublishError {
    /// There is no time until which a record could be good.
    ExpiryOverflow,
    Sequence(SequenceError),
    /// Something that was asked for was not had.
    Outside,
    /// What came was not what was asked for.
    OutOfOrder,
}

/// How far a pass has come.
#[derive(Clone, Copy, Debug)]
pub enum PublishStage {
    /// The subjects are read whose numbers the node must ask the network for;
    /// its records will be good until then.
    Subjects(u64),
    OwnEndpoints(u64),
    OwnBundles(u64),
    Build(u64),
    PutEndpoint(Id32),
    /// The record about this subject is put out.
    PutBundle(Id32, usize),
    /// The node becomes a provider of records about this subject.
    Provide(Id32, usize),
    /// The state is read for which others should stand.
    Readiness,
    Providers(Id32),
    /// This provider is asked.
    Asking(Id32, usize),
    Kept(Id32),
    Update(Id32),
    Done,
    Failed(PublishError),
}

/// What a pass needs next.
#[derive(Debug)]
pub enum PublishAction {
    ReadProbeSubjects,
    /// Find the node's own endpoints, under their key.
    FindOwnEndpoints { key: Vec<u8> },
    /// Find the node's own record about a subject, under its key.
    FindOwnBundle { subject: Id32, key: Vec<u8> },
    /// Build the records, with numbers no lower than these.
    Build { expires_at_unix_seconds: u64, endpoint_floor: u64, recovery_floors: Vec<(Id32, u64)> },
    /// Put the record of the node's endpoints under its key.
    PutEndpoint { key: Vec<u8>, record: Vec<u8> },
    /// Put the record about a subject under its key.
    PutBundle { subject: Id32, key: Vec<u8>, record: Vec<u8> },
    /// Stand under the key of a subject's mailbox.
    Provide { subject: Id32, key: Vec<u8> },
    ReadReadiness,
    /// Find those who stand under the key of the node's own mailbox.
    FindProviders { key: Vec<u8> },
    /// Find the record of a provider about the node, under its key.
    FindBundle { provider: String, key: Vec<u8> },
    /// Read what the node has kept of records about itself.
    ReadKept,
    /// Keep the records of these providers, by their places among those that
    /// were asked, and note who stands behind the state, until when.
    Update { state: Id32, certified: Vec<usize>, confirmations: Vec<(Id32, u64)> },
    Done,
    Failed(PublishError),
}

/// What a pass needs next, as a plain value.
pub enum PublishActionModel {
    ReadProbeSubjects,
    FindOwnEndpoints { key: Seq<u8> },
    FindOwnBundle { subject: Id32, key: Seq<u8> },
    Build { expires_at_unix_seconds: u64, endpoint_floor: u64, recovery_floors: Seq<(Id32, u64)> },
    PutEndpoint { key: Seq<u8>, record: Seq<u8> },
    PutBundle { subject: Id32, key: Seq<u8>, record: Seq<u8> },
    Provide { subject: Id32, key: Seq<u8> },
    ReadReadiness,
    FindProviders { key: Seq<u8> },
    FindBundle { provider: Seq<char>, key: Seq<u8> },
    ReadKept,
    Update { state: Id32, certified: Seq<usize>, confirmations: Seq<(Id32, u64)> },
    Done,
    Failed(PublishError),
}

impl PublishAction {
    pub open spec fn view(&self) -> PublishActionModel {
        match *self {
            PublishAction::ReadProbeSubjects => PublishActionModel::ReadProbeSubjects,
            PublishAction::FindOwnEndpoints { key } => PublishActionModel::FindOwnEndpoints {
                key: key@,
            },
            PublishAction::FindOwnBundle { subject, key } => PublishActionModel::FindOwnBundle {
                subject,
                key: key@,
            },
            PublishAction::Build { expires_at_unix_seconds, endpoint_floor, recovery_floors } =>
                PublishActionModel::Build {
                expires_at_unix_seconds,
                endpoint_floor,
                recovery_floors: recovery_floors@,
            },
            PublishAction::PutEndpoint { key, record } => PublishActionModel::PutEndpoint {
                key: key@,
                record: record@,
            },
            PublishAction::PutBundle { subject, key, record } => PublishActionModel::PutBundle {
                subject,
                key: key@,
                record: record@,
            },
            PublishAction::Provide { subject, key } => PublishActionModel::Provide {
                subject,
                key: key@,
            },
            PublishAction::ReadReadiness => PublishActionModel::ReadReadiness,
            PublishAction::FindProviders { key } => PublishActionModel::FindProviders {
                key: key@,
            },
            PublishAction::FindBundle { provider, key } => PublishActionModel::FindBundle {
                provider: provider@,
                key: key@,
            },
            PublishAction::ReadKept => PublishActionModel::ReadKept,
            PublishAction::Update { state, certified, confirmations } =>
                PublishActionModel::Update {
                state,
                certified: certified@,
                confirmations: confirmations@,
            },
            PublishAction::Done => PublishActionModel::Done,
            PublishAction::Failed(error) => PublishActionModel::Failed(error),
        }
    }
}

/// A record about the node that it has kept itself.
#[derive(Debug)]
pub struct KeptRecord {
    pub provider: String,
    pub publisher: Id32,
    pub expires_at_unix_seconds: u64,
    /// It stands up to a closer look.
    pub fit: bool,
}

/// A record about the node that it has kept itself, as a plain value.
pub struct KeptModel {
    pub provider: Seq<char>,
    pub publisher: Id32,
    pub expires_at_unix_seconds: u64,
    pub fit: bool,
}

impl KeptRecord {
    pub open spec fn view(&self) -> KeptModel {
        KeptModel {
            provider: self.provider@,
            publisher: self.publisher,
            expires_at_unix_seconds: self.expires_at_unix_seconds,
            fit: self.fit,
        }
    }
}

/// Records that the node has kept itself, as plain values.
pub open spec fn kept_views(records: Seq<KeptRecord>) -> Seq<KeptModel> {
    records.map_values(|record: KeptRecord| record@)
}

/// What a pass over providers becomes with records that the node has kept.
pub open spec fn with_kept(round: RoundModel, records: Seq<KeptModel>) -> RoundModel
    decreases records.len(),
{
    if records.len() == 0 {
        round
    } else {
        let before = with_kept(round, records.drop_last());
        let record = records.last();
        if record.fit && before.looks_at_kept(record.provider, record.publisher) {
            before.counting(record.publisher, record.expires_at_unix_seconds)
        } else {
            before
        }
    }
}

/// A recovery record that was built.
#[derive(Debug)]
pub struct BuiltBundle {
    pub subject: Id32,
    /// The canonical bytes of the signed record.
    pub record: Vec<u8>,
}

/// A recovery record that was built, as a plain value.
pub struct BundleModel {
    pub subject: Id32,
    pub record: Seq<u8>,
}

impl BuiltBundle {
    pub open spec fn view(&self) -> BundleModel {
        BundleModel { subject: self.subject, record: self.record@ }
    }
}

pub open spec fn bundle_views(bundles: Seq<BuiltBundle>) -> Seq<BundleModel> {
    bundles.map_values(|bundle: BuiltBundle| bundle@)
}

/// What was built.
#[derive(Debug)]
pub struct BuiltRecords {
    /// The canonical bytes of the signed record of endpoints.
    pub endpoint: Vec<u8>,
    pub bundles: Vec<BuiltBundle>,
    /// The state that the records are about.
    pub state: Id32,
}

/// What was built, as a plain value.
pub struct BuiltModel {
    pub endpoint: Seq<u8>,
    pub bundles: Seq<BundleModel>,
    pub state: Id32,
}

impl BuiltRecords {
    pub open spec fn view(&self) -> BuiltModel {
        BuiltModel {
            endpoint: self.endpoint@,
            bundles: bundle_views(self.bundles@),
            state: self.state,
        }
    }
}

/// What came of an action.
#[derive(Debug)]
pub enum PublishEvent {
    Subjects(Vec<Id32>),
    OwnEndpoints(Vec<Option<SignedEndpoints>>),
    OwnBundle(Vec<Option<SignedBundle>>),
    /// The records were built, unless there is nothing to publish.
    Built(Option<BuiltRecords>),
    Put,
    Provided,
    /// The state for which others should stand, if there is one.
    Readiness(Option<Id32>),
    Providers(Vec<String>),
    Answer(ProviderAnswer),
    Kept(Vec<KeptRecord>),
    Updated,
    Failed,
}

/// What came of an action, as a plain value.
pub enum PublishEventModel {
    Subjects(Seq<Id32>),
    OwnEndpoints(Seq<Option<SignedEndpoints>>),
    OwnBundle(Seq<Option<SignedBundle>>),
    Built(Option<BuiltModel>),
    Put,
    Provided,
    Readiness(Option<Id32>),
    Providers(Seq<Seq<char>>),
    Answer(ProviderAnswer),
    Kept(Seq<KeptModel>),
    Updated,
    Failed,
}

impl PublishEvent {
    pub open spec fn view(&self) -> PublishEventModel {
        match *self {
            PublishEvent::Subjects(subjects) => PublishEventModel::Subjects(subjects@),
            PublishEvent::OwnEndpoints(records) => PublishEventModel::OwnEndpoints(records@),
            PublishEvent::OwnBundle(records) => PublishEventModel::OwnBundle(records@),
            PublishEvent::Built(Some(built)) => PublishEventModel::Built(Some(built@)),
            PublishEvent::Built(None) => PublishEventModel::Built(None),
            PublishEvent::Put => PublishEventModel::Put,
            PublishEvent::Provided => PublishEventModel::Provided,
            PublishEvent::Readiness(state) => PublishEventModel::Readiness(state),
            PublishEvent::Providers(providers) => PublishEventModel::Providers(texts(providers@)),
            PublishEvent::Answer(answer) => PublishEventModel::Answer(answer),
            PublishEvent::Kept(records) => PublishEventModel::Kept(kept_views(records@)),
            PublishEvent::Updated => PublishEventModel::Updated,
            PublishEvent::Failed => PublishEventModel::Failed,
        }
    }
}

/// A pass of publication.
pub struct PublishPass {
    local: Id32,
    local_peer: String,
    subjects: Vec<Id32>,
    endpoint_floor: u64,
    recovery_floors: Vec<(Id32, u64)>,
    endpoint: Vec<u8>,
    bundles: Vec<BuiltBundle>,
    asked: Vec<String>,
    certified: Vec<usize>,
    round: ProviderRound,
    stage: PublishStage,
}

/// A pass of publication, for contracts.
#[verifier::ext_equal]
pub struct PublishModel {
    pub local: Id32,
    pub local_peer: Seq<char>,
    /// The subjects whose numbers the network is asked for.
    pub subjects: Seq<Id32>,
    pub endpoint_floor: u64,
    pub recovery_floors: Seq<(Id32, u64)>,
    /// The record of endpoints that was built.
    pub endpoint: Seq<u8>,
    /// The recovery records that were built.
    pub bundles: Seq<BundleModel>,
    /// The providers that are asked.
    pub asked: Seq<Seq<char>>,
    /// The places of those whose records count.
    pub certified: Seq<usize>,
    pub round: RoundModel,
    pub stage: PublishStage,
}

/// No provider has answered.
pub open spec fn empty_round() -> RoundModel {
    RoundModel { rejected: Set::empty(), counted: Set::empty(), confirmations: Seq::empty() }
}

impl PublishModel {
    pub open spec fn wf(self) -> bool {
        &&& self.round.faithful()
        &&& (self.stage is OwnBundles ==> self.recovery_floors.len() < self.subjects.len())
        &&& (self.stage matches PublishStage::PutBundle(_, at) ==> at < self.bundles.len())
        &&& (self.stage matches PublishStage::Provide(_, at) ==> at < self.bundles.len())
        &&& (self.stage matches PublishStage::Asking(_, at) ==> at < self.asked.len())
    }

    /// What is needed next.
    pub open spec fn next(self) -> PublishActionModel {
        match self.stage {
            PublishStage::Subjects(_) => PublishActionModel::ReadProbeSubjects,
            PublishStage::OwnEndpoints(_) => PublishActionModel::FindOwnEndpoints {
                key: endpoint_key(self.local_peer),
            },
            PublishStage::OwnBundles(_) => PublishActionModel::FindOwnBundle {
                subject: self.subjects[self.recovery_floors.len() as int],
                key: bundle_key(
                    self.subjects[self.recovery_floors.len() as int],
                    self.local_peer,
                ),
            },
            PublishStage::Build(expires_at_unix_seconds) => PublishActionModel::Build {
                expires_at_unix_seconds,
                endpoint_floor: self.endpoint_floor,
                recovery_floors: self.recovery_floors,
            },
            PublishStage::PutEndpoint(_) => PublishActionModel::PutEndpoint {
                key: endpoint_key(self.local_peer),
                record: self.endpoint,
            },
            PublishStage::PutBundle(_, at) => PublishActionModel::PutBundle {
                subject: self.bundles[at as int].subject,
                key: bundle_key(self.bundles[at as int].subject, self.local_peer),
                record: self.bundles[at as int].record,
            },
            PublishStage::Provide(_, at) => PublishActionModel::Provide {
                subject: self.bundles[at as int].subject,
                key: mailbox_key(self.bundles[at as int].subject),
            },
            PublishStage::Readiness => PublishActionModel::ReadReadiness,
            PublishStage::Providers(_) => PublishActionModel::FindProviders {
                key: mailbox_key(self.local),
            },
            PublishStage::Asking(_, at) => PublishActionModel::FindBundle {
                provider: self.asked[at as int],
                key: bundle_key(self.local, self.asked[at as int]),
            },
            PublishStage::Kept(_) => PublishActionModel::ReadKept,
            PublishStage::Update(state) => PublishActionModel::Update {
                state,
                certified: self.certified,
                confirmations: self.round.confirmations,
            },
            PublishStage::Done => PublishActionModel::Done,
            PublishStage::Failed(error) => PublishActionModel::Failed(error),
        }
    }

    /// The pass at another stage.
    pub open spec fn at(self, stage: PublishStage) -> PublishModel {
        PublishModel { stage, ..self }
    }

    /// The pass with the number for its record of endpoints.
    pub open spec fn with_endpoint_floor(
        self,
        expires: u64,
        records: Seq<Option<SignedEndpoints>>,
    ) -> PublishModel {
        match next_number(endpoint_numbers(self.local, records)) {
            Err(error) => self.at(PublishStage::Failed(PublishError::Sequence(error))),
            Ok(floor) => PublishModel {
                endpoint_floor: floor,
                stage: if self.recovery_floors.len() < self.subjects.len() {
                    PublishStage::OwnBundles(expires)
                } else {
                    PublishStage::Build(expires)
                },
                ..self
            },
        }
    }

    /// The pass with the number for one of its recovery records.
    pub open spec fn with_recovery_floor(
        self,
        expires: u64,
        records: Seq<Option<SignedBundle>>,
    ) -> PublishModel {
        let subject = self.subjects[self.recovery_floors.len() as int];
        match next_number(bundle_numbers(self.local_peer, subject, records)) {
            Err(error) => self.at(PublishStage::Failed(PublishError::Sequence(error))),
            Ok(floor) => PublishModel {
                recovery_floors: self.recovery_floors.push((subject, floor)),
                stage: if self.recovery_floors.len() + 1 < self.subjects.len() {
                    PublishStage::OwnBundles(expires)
                } else {
                    PublishStage::Build(expires)
                },
                ..self
            },
        }
    }

    /// The stage at a recovery record, or behind the last.
    pub open spec fn bundle_stage(self, state: Id32, at: int) -> PublishStage {
        if at < self.bundles.len() {
            PublishStage::PutBundle(state, at as usize)
        } else {
            PublishStage::Providers(state)
        }
    }

    /// The stage at a provider, or behind the last.
    pub open spec fn asking_stage(self, state: Id32, at: int) -> PublishStage {
        if at < self.asked.len() {
            PublishStage::Asking(state, at as usize)
        } else {
            PublishStage::Kept(state)
        }
    }

    /// The pass with the providers that it asks.
    pub open spec fn with_providers(self, state: Id32, providers: Seq<Seq<char>>) -> PublishModel {
        let asking = PublishModel { asked: others(providers, self.local_peer), ..self };
        asking.at(asking.asking_stage(state, 0))
    }

    /// The pass with the answer of a provider.
    pub open spec fn with_answer(self, state: Id32, at: usize, answer: ProviderAnswer) -> PublishModel {
        PublishModel {
            certified: if answer is Fit {
                self.certified.push(at)
            } else {
                self.certified
            },
            round: self.round.answered(self.asked[at as int], answer),
            stage: self.asking_stage(state, at + 1),
            ..self
        }
    }

    /// The pass after an event.
    pub open spec fn after(self, event: PublishEventModel) -> PublishModel {
        match (self.stage, event) {
            (PublishStage::Failed(_), _) => self,
            (PublishStage::Done, _) => self,
            (_, PublishEventModel::Failed) => self.at(PublishStage::Failed(PublishError::Outside)),
            (PublishStage::Subjects(expires), PublishEventModel::Subjects(subjects)) =>
                PublishModel {
                subjects,
                stage: if subjects.len() == 0 {
                    PublishStage::Build(expires)
                } else {
                    PublishStage::OwnEndpoints(expires)
                },
                ..self
            },
            (PublishStage::OwnEndpoints(expires), PublishEventModel::OwnEndpoints(records)) =>
                self.with_endpoint_floor(expires, records),
            (PublishStage::OwnBundles(expires), PublishEventModel::OwnBundle(records)) =>
                self.with_recovery_floor(expires, records),
            (PublishStage::Build(_), PublishEventModel::Built(None)) => self.at(PublishStage::Done),
            (PublishStage::Build(_), PublishEventModel::Built(Some(built))) => PublishModel {
                endpoint: built.endpoint,
                bundles: built.bundles,
                stage: PublishStage::PutEndpoint(built.state),
                ..self
            },
            (PublishStage::PutEndpoint(state), PublishEventModel::Put) => self.at(
                self.bundle_stage(state, 0),
            ),
            (PublishStage::PutBundle(state, at), PublishEventModel::Put) => self.at(
                PublishStage::Provide(state, at),
            ),
            (PublishStage::Provide(state, at), PublishEventModel::Provided) => self.at(
                self.bundle_stage(state, at + 1),
            ),
            (PublishStage::Readiness, PublishEventModel::Readiness(Some(state))) => self.at(
                PublishStage::Providers(state),
            ),
            (PublishStage::Readiness, PublishEventModel::Readiness(None)) => self.at(
                PublishStage::Done,
            ),
            (PublishStage::Providers(state), PublishEventModel::Providers(providers)) =>
                self.with_providers(state, providers),
            (PublishStage::Asking(state, at), PublishEventModel::Answer(answer)) =>
                self.with_answer(state, at, answer),
            (PublishStage::Kept(state), PublishEventModel::Kept(records)) => PublishModel {
                round: with_kept(self.round, records),
                stage: PublishStage::Update(state),
                ..self
            },
            (PublishStage::Update(_), PublishEventModel::Updated) => self.at(PublishStage::Done),
            _ => self.at(PublishStage::Failed(PublishError::OutOfOrder)),
        }
    }
}

/// A pass that has just begun. A node that cannot be reached publishes nothing,
/// but still learns who stands behind its state.
pub open spec fn pass_begun(
    local: Id32,
    local_peer: Seq<char>,
    reachable: bool,
    now: u64,
) -> PublishModel {
    PublishModel {
        local,
        local_peer,
        subjects: Seq::empty(),
        endpoint_floor: 0,
        recovery_floors: Seq::empty(),
        endpoint: Seq::empty(),
        bundles: Seq::empty(),
        asked: Seq::empty(),
        certified: Seq::empty(),
        round: empty_round(),
        stage: if !reachable {
            PublishStage::Readiness
        } else if now + DHT_TTL_SECONDS <= u64::MAX {
            PublishStage::Subjects((now + DHT_TTL_SECONDS) as u64)
        } else {
            PublishStage::Failed(PublishError::ExpiryOverflow)
        },
    }
}

/// Begins a pass of publication for a node that can be reached at some
/// endpoints now, or at none.
pub fn publish_dht_once(local: Id32, local_peer: String, endpoints: &Vec<String>, now: u64) -> (pass:
    PublishPass)
    ensures
        pass@ == pass_begun(local, local_peer@, endpoints@.len() > 0, now),
        pass.wf(),
{
    let stage = if endpoints.len() == 0 {
        PublishStage::Readiness
    } else {
        match publication_expiry(now) {
            Some(expires) => PublishStage::Subjects(expires),
            None => PublishStage::Failed(PublishError::ExpiryOverflow),
        }
    };
    let pass = PublishPass {
        local,
        local_peer,
        subjects: Vec::new(),
        endpoint_floor: 0,
        recovery_floors: Vec::new(),
        endpoint: Vec::new(),
        bundles: Vec::new(),
        asked: Vec::new(),
        certified: Vec::new(),
        round: ProviderRound::new(),
        stage,
    };
    assert(texts(pass.asked@) =~= Seq::empty());
    assert(bundle_views(pass.bundles@) =~= Seq::empty());
    pass
}

fn copied_bytes(bytes: &Vec<u8>) -> (copy: Vec<u8>)
    ensures
        copy@ == bytes@,
{
    let mut copy: Vec<u8> = Vec::new();
    crate::commit::push_copies(&mut copy, bytes);
    assert(copy@ =~= bytes@);
    copy
}

impl PublishPass {
    pub closed spec fn view(&self) -> PublishModel {
        PublishModel {
            local: self.local,
            local_peer: self.local_peer@,
            subjects: self.subjects@,
            endpoint_floor: self.endpoint_floor,
            recovery_floors: self.recovery_floors@,
            endpoint: self.endpoint@,
            bundles: bundle_views(self.bundles@),
            asked: texts(self.asked@),
            certified: self.certified@,
            round: self.round@,
            stage: self.stage,
        }
    }

    pub closed spec fn wf(&self) -> bool {
        self.round.wf() && self@.wf()
    }

    /// What is needed next.
    pub fn next(&self) -> (action: PublishAction)
        requires
            self.wf(),
        ensures
            action@ == self@.next(),
    {
        match self.stage {
            PublishStage::Subjects(_) => PublishAction::ReadProbeSubjects,
            PublishStage::OwnEndpoints(_) => PublishAction::FindOwnEndpoints {
                key: endpoint_record_key(self.local_peer.as_str()),
            },
            PublishStage::OwnBundles(_) => {
                let subject = self.subjects[self.recovery_floors.len()];
                PublishAction::FindOwnBundle {
                    subject,
                    key: recovery_bundle_key(&subject, self.local_peer.as_str()),
                }
            },
            PublishStage::Build(expires_at_unix_seconds) => {
                let mut recovery_floors: Vec<(Id32, u64)> = Vec::new();
                crate::commit::push_copies(&mut recovery_floors, &self.recovery_floors);
                assert(recovery_floors@ =~= self.recovery_floors@);
                PublishAction::Build {
                    expires_at_unix_seconds,
                    endpoint_floor: self.endpoint_floor,
                    recovery_floors,
                }
            },
            PublishStage::PutEndpoint(_) => PublishAction::PutEndpoint {
                key: endpoint_record_key(self.local_peer.as_str()),
                record: copied_bytes(&self.endpoint),
            },
            PublishStage::PutBundle(_, at) => {
                let bundle = &self.bundles[at];
                assert(self@.bundles[at as int] == bundle@);
                PublishAction::PutBundle {
                    subject: bundle.subject,
                    key: recovery_bundle_key(&bundle.subject, self.local_peer.as_str()),
                    record: copied_bytes(&bundle.record),
                }
            },
            PublishStage::Provide(_, at) => {
                let bundle = &self.bundles[at];
                assert(self@.bundles[at as int] == bundle@);
                PublishAction::Provide {
                    subject: bundle.subject,
                    key: recovery_mailbox_key(&bundle.subject),
                }
            },
            PublishStage::Readiness => PublishAction::ReadReadiness,
            PublishStage::Providers(_) => PublishAction::FindProviders {
                key: recovery_mailbox_key(&self.local),
            },
            PublishStage::Asking(_, at) => {
                let provider = self.asked[at].clone();
                let key = recovery_bundle_key(&self.local, provider.as_str());
                PublishAction::FindBundle { provider, key }
            },
            PublishStage::Kept(_) => PublishAction::ReadKept,
            PublishStage::Update(state) => {
                let mut certified: Vec<usize> = Vec::new();
                crate::commit::push_copies(&mut certified, &self.certified);
                assert(certified@ =~= self.certified@);
                let mut confirmations: Vec<(Id32, u64)> = Vec::new();
                crate::commit::push_copies(&mut confirmations, &self.round.confirmations);
                assert(confirmations@ =~= self.round.confirmations@);
                PublishAction::Update { state, certified, confirmations }
            },
            PublishStage::Done => PublishAction::Done,
            PublishStage::Failed(error) => PublishAction::Failed(error),
        }
    }

    fn go_to(&mut self, stage: PublishStage)
        requires
            old(self).wf(),
            old(self)@.at(stage).wf(),
        ensures
            final(self).wf(),
            final(self)@ == old(self)@.at(stage),
    {
        self.stage = stage;
    }

    fn take_own_endpoints(&mut self, expires: u64, records: &Vec<Option<SignedEndpoints>>)
        requires
            old(self).wf(),
            old(self)@.stage is OwnEndpoints,
        ensures
            final(self).wf(),
            final(self)@ == old(self)@.with_endpoint_floor(expires, records@),
    {
        match endpoint_sequence_floor(&self.local, records) {
            Err(error) => {
                self.stage = PublishStage::Failed(PublishError::Sequence(error));
            },
            Ok(floor) => {
                self.endpoint_floor = floor;
                self.stage = if self.recovery_floors.len() < self.subjects.len() {
                    PublishStage::OwnBundles(expires)
                } else {
                    PublishStage::Build(expires)
                };
            },
        }
    }

    fn take_own_bundle(&mut self, expires: u64, records: &Vec<Option<SignedBundle>>)
        requires
            old(self).wf(),
            old(self)@.stage is OwnBundles,
        ensures
            final(self).wf(),
            final(self)@ == old(self)@.with_recovery_floor(expires, records@),
    {
        let subject = self.subjects[self.recovery_floors.len()];
        match recovery_sequence_floor(self.local_peer.as_str(), &subject, records) {
            Err(error) => {
                self.stage = PublishStage::Failed(PublishError::Sequence(error));
            },
            Ok(floor) => {
                self.recovery_floors.push((subject, floor));
                self.stage = if self.recovery_floors.len() < self.subjects.len() {
                    PublishStage::OwnBundles(expires)
                } else {
                    PublishStage::Build(expires)
                };
            },
        }
    }

    fn go_to_bundle(&mut self, state: Id32, at: usize)
        requires
            old(self).wf(),
        ensures
            final(self).wf(),
            final(self)@ == old(self)@.at(old(self)@.bundle_stage(state, at as int)),
    {
        if at < self.bundles.len() {
            self.stage = PublishStage::PutBundle(state, at);
        } else {
            self.stage = PublishStage::Providers(state);
        }
    }

    fn go_to_provider(&mut self, state: Id32, at: usize)
        requires
            old(self).round.wf(),
        ensures
            final(self).wf(),
            final(self)@ == old(self)@.at(old(self)@.asking_stage(state, at as int)),
    {
        if at < self.asked.len() {
            self.stage = PublishStage::Asking(state, at);
        } else {
            self.stage = PublishStage::Kept(state);
        }
    }

    fn take_answer(&mut self, state: Id32, at: usize, answer: ProviderAnswer)
        requires
            old(self).wf(),
            old(self)@.stage == PublishStage::Asking(state, at),
        ensures
            final(self).wf(),
            final(self)@ == old(self)@.with_answer(state, at, answer),
    {
        assert(at < self.asked.len());
        let provider = self.asked[at].clone();
        assert(provider@ == self@.asked[at as int]);
        self.round.answer(provider, answer);
        if let ProviderAnswer::Fit { .. } = answer {
            self.certified.push(at);
        }
        self.go_to_provider(state, at + 1);
    }

    fn take_kept(&mut self, state: Id32, records: &Vec<KeptRecord>)
        requires
            old(self).wf(),
            old(self)@.stage is Kept,
        ensures
            final(self).wf(),
            final(self)@ == (PublishModel {
                round: with_kept(old(self)@.round, kept_views(records@)),
                stage: PublishStage::Update(state),
                ..old(self)@
            }),
    {
        let ghost all = kept_views(records@);
        let ghost start = self@;
        let mut i: usize = 0;
        assert(all.take(0) =~= Seq::empty());
        while i < records.len()
            invariant
                i <= records@.len(),
                all == kept_views(records@),
                self.round.wf(),
                self@ == (PublishModel {
                    round: with_kept(start.round, all.take(i as int)),
                    ..start
                }),
            decreases records@.len() - i,
        {
            let record = &records[i];
            proof {
                assert(all.take(i + 1).drop_last() =~= all.take(i as int));
                assert(all.take(i + 1).last() == record@);
            }
            self.round.keep(
                &record.provider,
                record.publisher,
                record.expires_at_unix_seconds,
                record.fit,
            );
            i += 1;
        }
        assert(all.take(i as int) =~= all);
        self.stage = PublishStage::Update(state);
    }

    /// Takes what came of the last action.
    pub fn take(&mut self, event: PublishEvent)
        requires
            old(self).wf(),
        ensures
            final(self).wf(),
            final(self)@ == old(self)@.after(event@),
    {
        match (self.stage, event) {
            (PublishStage::Failed(_), _) => {},
            (PublishStage::Done, _) => {},
            (_, PublishEvent::Failed) => {
                self.go_to(PublishStage::Failed(PublishError::Outside));
            },
            (PublishStage::Subjects(expires), PublishEvent::Subjects(subjects)) => {
                self.stage = if subjects.len() == 0 {
                    PublishStage::Build(expires)
                } else {
                    PublishStage::OwnEndpoints(expires)
                };
                self.subjects = subjects;
            },
            (PublishStage::OwnEndpoints(expires), PublishEvent::OwnEndpoints(records)) => {
                self.take_own_endpoints(expires, &records);
            },
            (PublishStage::OwnBundles(expires), PublishEvent::OwnBundle(records)) => {
                self.take_own_bundle(expires, &records);
            },
            (PublishStage::Build(_), PublishEvent::Built(None)) => {
                self.go_to(PublishStage::Done);
            },
            (PublishStage::Build(_), PublishEvent::Built(Some(built))) => {
                self.endpoint = built.endpoint;
                self.bundles = built.bundles;
                self.stage = PublishStage::PutEndpoint(built.state);
            },
            (PublishStage::PutEndpoint(state), PublishEvent::Put) => {
                self.go_to_bundle(state, 0);
            },
            (PublishStage::PutBundle(state, at), PublishEvent::Put) => {
                self.go_to(PublishStage::Provide(state, at));
            },
            (PublishStage::Provide(state, at), PublishEvent::Provided) => {
                assert(at < self.bundles.len());
                self.go_to_bundle(state, at + 1);
            },
            (PublishStage::Readiness, PublishEvent::Readiness(Some(state))) => {
                self.go_to(PublishStage::Providers(state));
            },
            (PublishStage::Readiness, PublishEvent::Readiness(None)) => {
                self.go_to(PublishStage::Done);
            },
            (PublishStage::Providers(state), PublishEvent::Providers(providers)) => {
                self.asked = providers_to_ask(&providers, &self.local_peer);
                self.go_to_provider(state, 0);
            },
            (PublishStage::Asking(state, at), PublishEvent::Answer(answer)) => {
                self.take_answer(state, at, answer);
            },
            (PublishStage::Kept(state), PublishEvent::Kept(records)) => {
                self.take_kept(state, &records);
            },
            (PublishStage::Update(_), PublishEvent::Updated) => {
                self.go_to(PublishStage::Done);
            },
            _ => {
                self.go_to(PublishStage::Failed(PublishError::OutOfOrder));
            },
        }
    }
}

/// A node that cannot be reached puts nothing out: of its pass only reading is
/// left, and what comes of that leads to no record either.
pub proof fn an_unreachable_node_publishes_nothing(
    local: Id32,
    local_peer: Seq<char>,
    now: u64,
    pass: PublishModel,
    event: PublishEventModel,
)
    ensures
        silent(pass_begun(local, local_peer, false, now)),
        silent(pass) ==> silent(pass.after(event)),
        silent(pass) ==> !(pass.next() is PutEndpoint || pass.next() is PutBundle
            || pass.next() is Provide),
{
}

/// A node puts its records out, and looks for those of others about itself,
/// under the same keys: it stands where the subjects of its records look for
/// those who keep them, and each finds the record that it put out.
pub proof fn records_are_looked_for_where_they_are_put(publisher: PublishModel, seeker: PublishModel)
    ensures
        publisher.next() matches PublishActionModel::Provide { subject, key }
            ==> seeker.stage is Providers && subject == seeker.local ==> seeker.next() == (
        PublishActionModel::FindProviders { key }),
        publisher.next() matches PublishActionModel::PutBundle { subject, key, .. } ==> (
        seeker.stage matches PublishStage::Asking(_, at) ==> subject == seeker.local
            && seeker.asked[at as int] == publisher.local_peer ==> seeker.next() == (
        PublishActionModel::FindBundle { provider: publisher.local_peer, key })),
{
}

/// A pass that puts no records out any more.
pub open spec fn silent(pass: PublishModel) -> bool {
    pass.stage is Readiness || pass.stage is Providers || pass.stage is Asking
        || pass.stage is Kept || pass.stage is Update || pass.stage is Done || pass.stage is Failed
}

/// A reachable node begins by reading about whom it has records to publish; one
/// that is not reachable only asks for the state that it wants to be ready for.
/// Records live a quarter of an hour; where that cannot be told, the pass fails.
pub proof fn a_pass_begins_with_its_subjects(
    local: Id32,
    local_peer: Seq<char>,
    now: u64,
    subjects: Seq<Id32>,
)
    ensures
        ({
            let pass = pass_begun(local, local_peer, true, now);
            let told = pass.after(PublishEventModel::Subjects(subjects));
            &&& pass.local == local && pass.local_peer == local_peer
            &&& now + 900 > u64::MAX ==> pass.next() == PublishActionModel::Failed(
                PublishError::ExpiryOverflow,
            )
            &&& now + 900 <= u64::MAX ==> {
                &&& pass.next() is ReadProbeSubjects
                &&& told.subjects == subjects
                &&& if subjects.len() == 0 {
                    told.next() == (PublishActionModel::Build {
                        expires_at_unix_seconds: (now + 900) as u64,
                        endpoint_floor: 0,
                        recovery_floors: Seq::empty(),
                    })
                } else {
                    told.stage == PublishStage::OwnEndpoints((now + 900) as u64) && told.next() == (
                    PublishActionModel::FindOwnEndpoints { key: endpoint_key(local_peer) })
                }
            }
        }),
        pass_begun(local, local_peer, false, now).next() is ReadReadiness,
{
}

/// For each subject, in order, the node looks for its own record about it, and
/// takes the number above all that it finds; then all is built with just these
/// numbers. A fork among the numbers, or their end, fails the pass.
pub proof fn numbers_are_taken_for_every_subject(
    pass: PublishModel,
    expires: u64,
    endpoints: Seq<Option<SignedEndpoints>>,
    bundles: Seq<Option<SignedBundle>>,
)
    requires
        pass.wf(),
    ensures
        pass.stage == PublishStage::OwnEndpoints(expires) && pass.recovery_floors.len() == 0
            && pass.subjects.len() > 0 ==> ({
            let after = pass.after(PublishEventModel::OwnEndpoints(endpoints));
            match next_number(endpoint_numbers(pass.local, endpoints)) {
                Ok(floor) => {
                    &&& after.endpoint_floor == floor
                    &&& after.stage == PublishStage::OwnBundles(expires)
                    &&& after.next() == (PublishActionModel::FindOwnBundle {
                        subject: pass.subjects[0],
                        key: bundle_key(pass.subjects[0], pass.local_peer),
                    })
                },
                Err(error) => after.next() == PublishActionModel::Failed(
                    PublishError::Sequence(error),
                ),
            }
        }),
        pass.stage == PublishStage::OwnBundles(expires) ==> ({
            let k = pass.recovery_floors.len() as int;
            let subject = pass.subjects[k];
            let after = pass.after(PublishEventModel::OwnBundle(bundles));
            &&& pass.next() == (PublishActionModel::FindOwnBundle {
                subject,
                key: bundle_key(subject, pass.local_peer),
            })
            &&& match next_number(bundle_numbers(pass.local_peer, subject, bundles)) {
                Ok(floor) => {
                    &&& after.endpoint_floor == pass.endpoint_floor
                    &&& after.recovery_floors == pass.recovery_floors.push((subject, floor))
                    &&& after.next() == (if k + 1 < pass.subjects.len() {
                        PublishActionModel::FindOwnBundle {
                            subject: pass.subjects[k + 1],
                            key: bundle_key(pass.subjects[k + 1], pass.local_peer),
                        }
                    } else {
                        PublishActionModel::Build {
                            expires_at_unix_seconds: expires,
                            endpoint_floor: pass.endpoint_floor,
                            recovery_floors: pass.recovery_floors.push((subject, floor)),
                        }
                    })
                },
                Err(error) => after.next() == PublishActionModel::Failed(
                    PublishError::Sequence(error),
                ),
            }
        }),
{
}

/// What was built is put out whole: first the endpoints, then each record with
/// the node's standing as one who keeps it, in order; and then it is asked who
/// stands behind the state that the records are about. Where nothing was built
/// the pass is done.
pub proof fn all_that_was_built_is_put_out(pass: PublishModel, built: BuiltModel)
    requires
        pass.wf(),
        pass.bundles.len() <= usize::MAX,
    ensures
        pass.next() is Build ==> {
            &&& pass.after(PublishEventModel::Built(None)).next() is Done
            &&& pass.after(PublishEventModel::Built(Some(built))).next() == (
            PublishActionModel::PutEndpoint {
                key: endpoint_key(pass.local_peer),
                record: built.endpoint,
            })
            &&& pass.after(PublishEventModel::Built(Some(built))).bundles == built.bundles
            &&& pass.after(PublishEventModel::Built(Some(built))).stage
                == PublishStage::PutEndpoint(built.state)
        },
        pass.stage matches PublishStage::PutEndpoint(state) ==> {
            let after = pass.after(PublishEventModel::Put);
            if pass.bundles.len() == 0 {
                after.stage == PublishStage::Providers(state) && after.next() == (
                PublishActionModel::FindProviders { key: mailbox_key(pass.local) })
            } else {
                after.stage == PublishStage::PutBundle(state, 0) && after.next() == (
                PublishActionModel::PutBundle {
                    subject: pass.bundles[0].subject,
                    key: bundle_key(pass.bundles[0].subject, pass.local_peer),
                    record: pass.bundles[0].record,
                })
            }
        },
        pass.stage matches PublishStage::PutBundle(state, at) ==> {
            let put = pass.after(PublishEventModel::Put);
            let provided = put.after(PublishEventModel::Provided);
            &&& pass.next() == (PublishActionModel::PutBundle {
                subject: pass.bundles[at as int].subject,
                key: bundle_key(pass.bundles[at as int].subject, pass.local_peer),
                record: pass.bundles[at as int].record,
            })
            &&& put.next() == (PublishActionModel::Provide {
                subject: pass.bundles[at as int].subject,
                key: mailbox_key(pass.bundles[at as int].subject),
            })
            &&& if at + 1 < pass.bundles.len() {
                provided.stage == PublishStage::PutBundle(state, (at + 1) as usize)
                    && provided.next() == (PublishActionModel::PutBundle {
                    subject: pass.bundles[at + 1].subject,
                    key: bundle_key(pass.bundles[at + 1].subject, pass.local_peer),
                    record: pass.bundles[at + 1].record,
                })
            } else {
                provided.stage == PublishStage::Providers(state) && provided.next() == (
                PublishActionModel::FindProviders { key: mailbox_key(pass.local) })
            }
        },
{
}

/// Every other provider is asked for its record about the node, in order; the
/// node itself is not. The places of those whose record is fit are noted. Then
/// what the node has kept itself is read, and last the store is told of the state
/// with those who stand behind it.
pub proof fn all_providers_are_asked(
    pass: PublishModel,
    providers: Seq<Seq<char>>,
    answer: ProviderAnswer,
    kept: Seq<KeptModel>,
    state: Id32,
)
    requires
        pass.wf(),
        pass.asked.len() <= usize::MAX,
        others(providers, pass.local_peer).len() <= usize::MAX,
    ensures
        pass.next() is ReadReadiness ==> {
            &&& pass.after(PublishEventModel::Readiness(None)).next() is Done
            &&& pass.after(PublishEventModel::Readiness(Some(state))).stage
                == PublishStage::Providers(state)
            &&& pass.after(PublishEventModel::Readiness(Some(state))).next() == (
            PublishActionModel::FindProviders { key: mailbox_key(pass.local) })
        },
        pass.stage == PublishStage::Providers(state) ==> {
            let after = pass.after(PublishEventModel::Providers(providers));
            &&& after.asked == others(providers, pass.local_peer)
            &&& if after.asked.len() == 0 {
                after.stage == PublishStage::Kept(state) && after.next() is ReadKept
            } else {
                after.stage == PublishStage::Asking(state, 0) && after.next() == (
                PublishActionModel::FindBundle {
                    provider: after.asked[0],
                    key: bundle_key(pass.local, after.asked[0]),
                })
            }
        },
        pass.stage matches PublishStage::Asking(about, at) ==> {
            let after = pass.after(PublishEventModel::Answer(answer));
            &&& pass.next() == (PublishActionModel::FindBundle {
                provider: pass.asked[at as int],
                key: bundle_key(pass.local, pass.asked[at as int]),
            })
            &&& after.certified == (if answer is Fit {
                pass.certified.push(at)
            } else {
                pass.certified
            })
            &&& after.round.rejected == (if answer is Conflicting {
                pass.round.rejected.insert(pass.asked[at as int])
            } else {
                pass.round.rejected
            })
            &&& after.round.confirmations == (match answer {
                ProviderAnswer::Fit { publisher, expires_at_unix_seconds } =>
                    pass.round.confirmations.push((publisher, expires_at_unix_seconds)),
                _ => pass.round.confirmations,
            })
            &&& if at + 1 < pass.asked.len() {
                after.stage == PublishStage::Asking(about, (at + 1) as usize) && after.next() == (
                PublishActionModel::FindBundle {
                    provider: pass.asked[at + 1],
                    key: bundle_key(pass.local, pass.asked[at + 1]),
                })
            } else {
                after.stage == PublishStage::Kept(about) && after.next() is ReadKept
            }
        },
        pass.stage == PublishStage::Kept(state) ==> {
            let after = pass.after(PublishEventModel::Kept(kept));
            &&& after.next() == (PublishActionModel::Update {
                state,
                certified: pass.certified,
                confirmations: after.round.confirmations,
            })
            &&& after.after(PublishEventModel::Updated).next() is Done
        },
{
}

/// Of what the node has kept itself, a record counts once: only one that is fit,
/// whose provider has not contradicted itself, and whose publisher is not counted
/// yet. Those who were counted before stay.
pub proof fn kept_records_count_once(round: RoundModel, records: Seq<KeptModel>)
    requires
        round.faithful(),
    ensures
        ({
            let after = with_kept(round, records);
            &&& round.confirmations.is_prefix_of(after.confirmations)
            &&& after.rejected == round.rejected
            &&& after.faithful()
            &&& forall|i: int|
                round.confirmations.len() <= i < after.confirmations.len() ==> exists|k: int|
                    0 <= k < records.len() && (#[trigger] records[k]).fit && !round.rejected.contains(
                        records[k].provider,
                    ) && !round.counted.contains(records[k].publisher) && (
                    #[trigger] after.confirmations[i]) == (
                        records[k].publisher,
                        records[k].expires_at_unix_seconds,
                    )
            &&& forall|i: int, j: int|
                0 <= i < j && round.confirmations.len() <= j < after.confirmations.len() ==> (
                #[trigger] after.confirmations[i]).0 != (#[trigger] after.confirmations[j]).0
            &&& forall|k: int|
                0 <= k < records.len() && (#[trigger] records[k]).fit && !round.rejected.contains(
                    records[k].provider,
                ) ==> after.counted.contains(records[k].publisher)
        }),
    decreases records.len(),
{
    if records.len() == 0 {
        assert(round.confirmations =~= round.confirmations.subrange(
            0,
            round.confirmations.len() as int,
        ));
    } else {
        let fewer = records.drop_last();
        kept_records_count_once(round, fewer);
        let before = with_kept(round, fewer);
        let after = with_kept(round, records);
        let n = before.confirmations.len() as int;
        assert(round.confirmations =~= after.confirmations.subrange(
            0,
            round.confirmations.len() as int,
        )) by {
            assert forall|i: int| 0 <= i < round.confirmations.len() implies round.confirmations[i]
                == after.confirmations[i] by {
                assert(before.confirmations.subrange(0, round.confirmations.len() as int)[i]
                    == before.confirmations[i]);
            }
        }
        assert forall|i: int| 0 <= i < n implies #[trigger] after.confirmations[i]
            == before.confirmations[i] by {}
        assert forall|publisher: Id32| #[trigger]
            after.counted.contains(publisher) <==> exists|i: int|
                0 <= i < after.confirmations.len() && (#[trigger] after.confirmations[i]).0
                    == publisher by {
            if before.counted.contains(publisher) {
                let i = choose|i: int|
                    0 <= i < before.confirmations.len() && (#[trigger] before.confirmations[i]).0
                        == publisher;
                assert(after.confirmations[i].0 == publisher);
            } else if after.counted.contains(publisher) {
                assert(after.confirmations[n].0 == publisher);
            }
            if exists|i: int|
                0 <= i < after.confirmations.len() && (#[trigger] after.confirmations[i]).0
                    == publisher {
                let i = choose|i: int|
                    0 <= i < after.confirmations.len() && (#[trigger] after.confirmations[i]).0
                        == publisher;
                if i < n {
                    assert(before.confirmations[i].0 == publisher);
                }
            }
        }
        assert forall|p: Id32| #[trigger] round.counted.contains(p) implies before.counted.contains(
            p,
        ) by {
            let i = choose|i: int|
                0 <= i < round.confirmations.len() && (#[trigger] round.confirmations[i]).0 == p;
            assert(before.confirmations.subrange(0, round.confirmations.len() as int)[i]
                == before.confirmations[i]);
            assert(before.confirmations[i].0 == p);
        }
        assert forall|i: int|
            round.confirmations.len() <= i < after.confirmations.len() implies exists|k: int|
            0 <= k < records.len() && (#[trigger] records[k]).fit && !round.rejected.contains(
                records[k].provider,
            ) && !round.counted.contains(records[k].publisher) && (
            #[trigger] after.confirmations[i]) == (
                records[k].publisher,
                records[k].expires_at_unix_seconds,
            ) by {
            if i < n {
                let k = choose|k: int|
                    0 <= k < fewer.len() && (#[trigger] fewer[k]).fit && !round.rejected.contains(
                        fewer[k].provider,
                    ) && !round.counted.contains(fewer[k].publisher) && (
                    #[trigger] before.confirmations[i]) == (
                        fewer[k].publisher,
                        fewer[k].expires_at_unix_seconds,
                    );
                assert(records[k] == fewer[k]);
            } else {
                assert(records[records.len() - 1].fit);
            }
        }
        assert forall|i: int, j: int|
            0 <= i < j && round.confirmations.len() <= j < after.confirmations.len() implies (
        #[trigger] after.confirmations[i]).0 != (#[trigger] after.confirmations[j]).0 by {
            if j < n {
                assert(before.confirmations[i].0 != before.confirmations[j].0);
            } else {
                assert(before.confirmations[i].0 == after.confirmations[i].0);
            }
        }
        assert forall|k: int|
            0 <= k < records.len() && (#[trigger] records[k]).fit && !round.rejected.contains(
                records[k].provider,
            ) implies after.counted.contains(records[k].publisher) by {
            if k < fewer.len() {
                assert(fewer[k] == records[k]);
                assert(before.counted.contains(records[k].publisher));
            }
        }
    }
}

/// What fails, and what was not asked for, ends a pass for good.
pub proof fn a_pass_takes_only_what_it_asked_for(pass: PublishModel, event: PublishEventModel)
    requires
        pass.wf(),
    ensures
        pass.next() is Done || pass.next() is Failed ==> pass.after(event) == pass,
        !(pass.next() is Done || pass.next() is Failed) && event is Failed ==> pass.after(
            event,
        ).next() == PublishActionModel::Failed(PublishError::Outside),
        !(event is Failed) && (match pass.next() {
            PublishActionModel::ReadProbeSubjects => !(event is Subjects),
            PublishActionModel::FindOwnEndpoints { .. } => !(event is OwnEndpoints),
            PublishActionModel::FindOwnBundle { .. } => !(event is OwnBundle),
            PublishActionModel::Build { .. } => !(event is Built),
            PublishActionModel::PutEndpoint { .. } => !(event is Put),
            PublishActionModel::PutBundle { .. } => !(event is Put),
            PublishActionModel::Provide { .. } => !(event is Provided),
            PublishActionModel::ReadReadiness => !(event is Readiness),
            PublishActionModel::FindProviders { .. } => !(event is Providers),
            PublishActionModel::FindBundle { .. } => !(event is Answer),
            PublishActionModel::ReadKept => !(event is Kept),
            PublishActionModel::Update { .. } => !(event is Updated),
            _ => false,
        }) ==> pass.after(event).next() == PublishActionModel::Failed(PublishError::OutOfOrder),
{
}

} // verus!
