//! One attempt at recovering a node from what the network knows of it: its
//! guild is found, a state is chosen, and what the node held is rebuilt.

use crate::address::{peer_of_key, peer_text};
use crate::commit::{first_place, push_copies};
use crate::dht::SignedBundle;
use crate::endpoints::{texts, EndpointLimits};
use crate::head_check::{
    certified_view, CertifiedModel, CertifiedState, CheckAction, CheckEvent, CheckEventModel,
};
use crate::hashing::{
    bundle_key, endpoint_key, mailbox_key, recovery_bundle_key, recovery_mailbox_key,
};
use crate::ids::Id32;
use crate::ordered::TextSet;
use crate::publication::{
    all_keyed, each_keyed, member_key, member_record_key, members_to_ask, other_members,
    DhtRecoveryResult,
};
use crate::publishing::{PublishActionModel, PublishModel};
use crate::recovery::{
    candidate_counts, decode_recovery_candidate, floor_upto, latest_place, latest_revision, lemma_latest_place, recovered_endpoint_floor,
    spelled, usable_endpoints, RecoveryCandidate, RecoveryHead, RecoveryLocator, RevisionFacts,
    SelectedBundle,
};
use crate::search::{
    a_search_finds_the_latest_certified_state, certified_among, checked, is_tried, search_begun,
    search_head, searched, stood_for, was_checked, HeadSearch, SearchAction, SearchModel,
    SearchStage,
};
use vstd::prelude::*;

verus! {

/// What a recovery record says besides which state it points to.
#[derive(Debug)]
pub struct CandidateDetails {
    /// The highest number that its publisher has seen of the node's endpoints.
    pub endpoint_floor: u64,
    /// The endpoints of its publisher.
    pub endpoints: Vec<String>,
    pub expires_at_unix_seconds: u64,
}

/// What a recovery record says besides which state it points to, as a plain
/// value.
pub struct DetailsModel {
    pub endpoint_floor: u64,
    pub endpoints: Seq<Seq<char>>,
    pub expires_at_unix_seconds: u64,
}

impl CandidateDetails {
    pub open spec fn view(&self) -> DetailsModel {
        DetailsModel {
            endpoint_floor: self.endpoint_floor,
            endpoints: texts(self.endpoints@),
            expires_at_unix_seconds: self.expires_at_unix_seconds,
        }
    }
}

/// What recovery records say, as plain values.
pub open spec fn details_views(details: Seq<CandidateDetails>) -> Seq<DetailsModel> {
    details.map_values(|entry: CandidateDetails| entry@)
}

/// A recovery record that counts.
#[derive(Debug)]
pub struct FoundCandidate {
    pub word: RecoveryCandidate,
    pub details: CandidateDetails,
}

/// What a provider's answer came to.
#[derive(Debug)]
pub enum BundleAnswer {
    /// No answer, or no record that counts.
    Nothing,
    /// Records that contradict each other.
    Conflicting,
    Candidate(FoundCandidate),
}

/// What a provider's answer came to, as a plain value.
pub enum BundleModel {
    Nothing,
    Conflicting,
    Candidate(RecoveryCandidate, DetailsModel),
}

impl BundleAnswer {
    pub open spec fn view(&self) -> BundleModel {
        match *self {
            BundleAnswer::Nothing => BundleModel::Nothing,
            BundleAnswer::Conflicting => BundleModel::Conflicting,
            BundleAnswer::Candidate(found) => BundleModel::Candidate(found.word, found.details@),
        }
    }
}

/// What a recovery record that counts says.
pub open spec fn found_in(locator: RecoveryLocator) -> (RecoveryCandidate, DetailsModel) {
    (
        RecoveryCandidate {
            publisher: locator.publisher,
            head: RecoveryHead {
                generation: locator.checkpoint_generation,
                guild_id: locator.guild_id,
                checkpoint_hash: locator.checkpoint_hash,
            },
        },
        DetailsModel {
            endpoint_floor: locator.subject_endpoint_sequence_floor,
            endpoints: texts(locator.endpoints@),
            expires_at_unix_seconds: locator.expires_at_unix_seconds,
        },
    )
}

/// What a provider's answer comes to, from the record that was selected and
/// what was sealed in it.
pub open spec fn answer_model(
    limits: EndpointLimits,
    subject: Id32,
    provider: Seq<char>,
    selected: SelectedBundle,
    opened: Option<RecoveryLocator>,
    now: u64,
) -> BundleModel {
    match selected {
        SelectedBundle::Nothing => BundleModel::Nothing,
        SelectedBundle::Conflicting => BundleModel::Conflicting,
        SelectedBundle::Bundle(bundle) => if candidate_counts(
            limits,
            subject,
            provider,
            bundle,
            opened,
            now,
        ) {
            BundleModel::Candidate(found_in(opened->0).0, found_in(opened->0).1)
        } else {
            BundleModel::Nothing
        },
    }
}

fn candidate_of(
    limits: &EndpointLimits,
    subject: &Id32,
    provider: &str,
    bundle: &SignedBundle,
    opened: Option<RecoveryLocator>,
    now: u64,
) -> (found: Option<FoundCandidate>)
    ensures
        found is Some == candidate_counts(*limits, *subject, provider@, *bundle, opened, now),
        found matches Some(found) ==> (found.word, found.details@) == found_in(opened->0),
{
    match opened {
        None => None,
        Some(locator) => {
            if decode_recovery_candidate(limits, subject, provider, bundle, Some(&locator), now)
                .is_err() {
                return None;
            }
            Some(
                FoundCandidate {
                    word: RecoveryCandidate {
                        publisher: locator.publisher,
                        head: RecoveryHead {
                            generation: locator.checkpoint_generation,
                            guild_id: locator.guild_id,
                            checkpoint_hash: locator.checkpoint_hash,
                        },
                    },
                    details: CandidateDetails {
                        endpoint_floor: locator.subject_endpoint_sequence_floor,
                        endpoints: locator.endpoints,
                        expires_at_unix_seconds: locator.expires_at_unix_seconds,
                    },
                },
            )
        },
    }
}

/// What a provider's answer comes to, from the record that was selected and
/// what was sealed in it. `None` is what could not be opened or decoded.
pub fn bundle_answer(
    limits: &EndpointLimits,
    subject: &Id32,
    provider: &str,
    selected: &SelectedBundle,
    opened: Option<RecoveryLocator>,
    now: u64,
) -> (answer: BundleAnswer)
    ensures
        answer@ == answer_model(*limits, *subject, provider@, *selected, opened, now),
{
    match selected {
        SelectedBundle::Nothing => BundleAnswer::Nothing,
        SelectedBundle::Conflicting => BundleAnswer::Conflicting,
        SelectedBundle::Bundle(bundle) => match candidate_of(
            limits,
            subject,
            provider,
            bundle,
            opened,
            now,
        ) {
            Some(found) => BundleAnswer::Candidate(found),
            None => BundleAnswer::Nothing,
        },
    }
}

/// What a record that the node has kept itself comes to.
pub fn kept_candidate(
    limits: &EndpointLimits,
    subject: &Id32,
    provider: String,
    bundle: &SignedBundle,
    opened: Option<RecoveryLocator>,
    now: u64,
) -> (kept: KeptCandidate)
    ensures
        kept@ == (KeptCandidateModel {
            provider: provider@,
            publisher: bundle.publisher,
            found: if candidate_counts(*limits, *subject, provider@, *bundle, opened, now) {
                Some(found_in(opened->0))
            } else {
                None
            },
        }),
{
    let found = candidate_of(limits, subject, provider.as_str(), bundle, opened, now);
    KeptCandidate { provider, publisher: bundle.publisher, found }
}

/// A recovery record that the node has kept itself.
#[derive(Debug)]
pub struct KeptCandidate {
    pub provider: String,
    pub publisher: Id32,
    /// What it says, where it counts.
    pub found: Option<FoundCandidate>,
}

/// A recovery record that the node has kept itself, as a plain value.
pub struct KeptCandidateModel {
    pub provider: Seq<char>,
    pub publisher: Id32,
    pub found: Option<(RecoveryCandidate, DetailsModel)>,
}

impl KeptCandidate {
    pub open spec fn view(&self) -> KeptCandidateModel {
        KeptCandidateModel {
            provider: self.provider@,
            publisher: self.publisher,
            found: match self.found {
                Some(found) => Some((found.word, found.details@)),
                None => None,
            },
        }
    }
}

/// Records that the node has kept itself, as plain values.
pub open spec fn kept_candidate_views(records: Seq<KeptCandidate>) -> Seq<KeptCandidateModel> {
    records.map_values(|record: KeptCandidate| record@)
}

/// A publisher has said something.
pub open spec fn has_spoken(words: Seq<RecoveryCandidate>, publisher: Id32) -> bool {
    exists|i: int| 0 <= i < words.len() && (#[trigger] words[i]).publisher == publisher
}

/// What was found of the node's guild.
#[verifier::ext_equal]
pub struct FoundModel {
    /// Providers that contradicted themselves.
    pub rejected: Set<Seq<char>>,
    pub words: Seq<RecoveryCandidate>,
    pub details: Seq<DetailsModel>,
}

impl FoundModel {
    /// Another record counts.
    pub open spec fn counting(self, word: RecoveryCandidate, details: DetailsModel) -> FoundModel {
        FoundModel { words: self.words.push(word), details: self.details.push(details), ..self }
    }

    /// A provider has answered.
    pub open spec fn answered(self, provider: Seq<char>, answer: BundleModel) -> FoundModel {
        match answer {
            BundleModel::Nothing => self,
            BundleModel::Conflicting => FoundModel {
                rejected: self.rejected.insert(provider),
                ..self
            },
            BundleModel::Candidate(word, details) => self.counting(word, details),
        }
    }

    /// A record that the node has kept counts only where its provider has not
    /// contradicted itself and its publisher has not spoken.
    pub open spec fn with_kept(self, record: KeptCandidateModel) -> FoundModel {
        let wanted = !self.rejected.contains(record.provider) && !has_spoken(
            self.words,
            record.publisher,
        );
        match record.found {
            Some((word, details)) => if wanted {
                self.counting(word, details)
            } else {
                self
            },
            None => self,
        }
    }

    /// Records that the node has kept, one after another.
    pub open spec fn with_all_kept(self, records: Seq<KeptCandidateModel>) -> FoundModel
        decreases records.len(),
    {
        if records.len() == 0 {
            self
        } else {
            self.with_all_kept(records.drop_last()).with_kept(records.last())
        }
    }
}

/// Endpoints of a member, and until when they are good.
#[derive(Debug)]
pub struct EndpointSet {
    pub endpoints: Vec<String>,
    pub expires_at_unix_seconds: u64,
}

impl EndpointSet {
    pub open spec fn view(&self) -> (Seq<Seq<char>>, u64) {
        (texts(self.endpoints@), self.expires_at_unix_seconds)
    }
}

/// The view of endpoints, if there are any.
pub open spec fn set_view(set: Option<EndpointSet>) -> Option<(Seq<Seq<char>>, u64)> {
    match set {
        Some(set) => Some(set@),
        None => None,
    }
}

/// The views of what was found of members.
pub open spec fn set_views(sets: Seq<Option<EndpointSet>>) -> Seq<
    Option<(Seq<Seq<char>>, u64)>,
> {
    sets.map_values(|set: Option<EndpointSet>| set_view(set))
}

/// A member in the roster of a recovered guild.
#[derive(Debug)]
pub struct RosterEntry {
    pub node: Id32,
    pub endpoints: Vec<String>,
    /// Until when its endpoints are good, where the node is to learn them.
    pub expires_at_unix_seconds: Option<u64>,
}

/// A member in the roster of a recovered guild, as a plain value.
pub struct RosterModel {
    pub node: Id32,
    pub endpoints: Seq<Seq<char>>,
    pub expires_at_unix_seconds: Option<u64>,
}

impl RosterEntry {
    pub open spec fn view(&self) -> RosterModel {
        RosterModel {
            node: self.node,
            endpoints: texts(self.endpoints@),
            expires_at_unix_seconds: self.expires_at_unix_seconds,
        }
    }
}

/// The members in a roster, as plain values.
pub open spec fn roster_views(roster: Seq<RosterEntry>) -> Seq<RosterModel> {
    roster.map_values(|entry: RosterEntry| entry@)
}

/// The first of some words that is by a member.
pub open spec fn word_by(
    chosen: Seq<usize>,
    words: Seq<RecoveryCandidate>,
    member: Id32,
) -> Option<usize>
    decreases chosen.len(),
{
    if chosen.len() == 0 {
        None
    } else {
        match word_by(chosen.drop_last(), words, member) {
            Some(word) => Some(word),
            None => if words[chosen.last() as int].publisher == member {
                Some(chosen.last())
            } else {
                None
            },
        }
    }
}

/// What the roster takes over of a member: the endpoints of its current record,
/// else those that its recovery record names, and of them those that spell
/// addresses. Of the node itself it takes over where it can be reached now.
pub open spec fn roster_entry(
    found: FoundModel,
    chosen: CertifiedModel,
    subject: Id32,
    local_endpoints: Seq<Seq<char>>,
    current: Seq<Option<(Seq<Seq<char>>, u64)>>,
    member: Id32,
) -> RosterModel {
    if member == subject {
        RosterModel { node: member, endpoints: local_endpoints, expires_at_unix_seconds: None }
    } else {
        let place = first_place(other_members(chosen.members, subject), member);
        let record = match place {
            Some(place) => if place < current.len() {
                current[place]
            } else {
                None
            },
            None => None,
        };
        let named = match word_by(chosen.words, found.words, member) {
            Some(word) => Some(
                (
                    found.details[word as int].endpoints,
                    found.details[word as int].expires_at_unix_seconds,
                ),
            ),
            None => None,
        };
        let from = if record is Some {
            record
        } else {
            named
        };
        match from {
            Some((endpoints, expires)) => RosterModel {
                node: member,
                endpoints: spelled(endpoints),
                expires_at_unix_seconds: Some(expires),
            },
            None => RosterModel {
                node: member,
                endpoints: Seq::empty(),
                expires_at_unix_seconds: None,
            },
        }
    }
}

/// The places of members whose endpoints the node is to learn.
pub open spec fn learned_places(roster: Seq<RosterModel>) -> Seq<usize>
    decreases roster.len(),
{
    if roster.len() == 0 {
        Seq::empty()
    } else {
        let before = learned_places(roster.drop_last());
        if roster.last().expires_at_unix_seconds is Some {
            before.push((roster.len() - 1) as usize)
        } else {
            before
        }
    }
}

/// Why an attempt can be repeated.
#[derive(Clone, Copy, Debug, PartialEq, Eq, Structural)]
pub enum RecoveryPending {
    ProvidersNotReady,
    /// Nowhere do enough publishers stand behind a state.
    NothingConfirmed,
    NothingCertified,
}

/// Why an attempt is the last.
#[derive(Clone, Copy, Debug, PartialEq, Eq, Structural)]
pub enum RecoveryFailure {
    /// More than one state is certified at a generation.
    Ambiguous(u64),
    /// The key of a member is not that of a peer.
    NoIdentity,
    /// Something that was asked for was not had.
    Outside,
    /// What came was not what was asked for.
    OutOfOrder,
}

/// How far an attempt has come.
#[derive(Clone, Copy, Debug)]
pub enum RecoveryStage {
    Providers,
    /// This provider is asked.
    Asking(usize),
    Kept,
    Searching,
    Pin,
    LocalEndpoints,
    /// The records of members are looked up.
    Lookup,
    /// The endpoints of this member are learned.
    Learning(usize),
    Adopt,
    Shards,
    Install,
    Restore(usize),
    Done(Option<u128>),
    Pending(RecoveryPending),
    Failed(RecoveryFailure),
}

/// What an attempt needs next.
#[derive(Debug)]
pub enum RecoveryAction {
    /// Find those who keep records about the node, under the key of its
    /// mailbox.
    FindProviders { key: Vec<u8> },
    /// Find the record of a provider, under its key.
    FindBundle { provider: String, key: Vec<u8> },
    /// Read what the node has kept of records about itself.
    ReadKept,
    Check { head: RecoveryHead, action: CheckAction },
    /// Hold on to a state and the words for it, and publish endpoints only
    /// under numbers above this one.
    Pin { head: RecoveryHead, words: Vec<usize>, endpoint_floor: u64 },
    ReadLocalEndpoints,
    /// Find the endpoints of a member, under their key.
    FindEndpoints { member: Id32, key: Vec<u8> },
    /// Learn the endpoints of the member at a place of the roster.
    Learn { place: usize, expires_at_unix_seconds: u64 },
    /// Take the guild over, with the roster as it stands.
    Adopt,
    RecoverShards,
    Install,
    /// Restore the revision at a place of the state.
    Restore { revision: usize },
    Done(DhtRecoveryResult),
    Pending(RecoveryPending),
    Failed(RecoveryFailure),
}

/// What an attempt needs next, as a plain value.
pub enum RecoveryActionModel {
    FindProviders { key: Seq<u8> },
    FindBundle { provider: Seq<char>, key: Seq<u8> },
    ReadKept,
    Check { head: RecoveryHead, action: CheckAction },
    Pin { head: RecoveryHead, words: Seq<usize>, endpoint_floor: u64 },
    ReadLocalEndpoints,
    FindEndpoints { member: Id32, key: Seq<u8> },
    Learn { place: usize, expires_at_unix_seconds: u64 },
    Adopt,
    RecoverShards,
    Install,
    Restore { revision: usize },
    Done(DhtRecoveryResult),
    Pending(RecoveryPending),
    Failed(RecoveryFailure),
}

impl RecoveryAction {
    pub open spec fn view(&self) -> RecoveryActionModel {
        match *self {
            RecoveryAction::FindProviders { key } => RecoveryActionModel::FindProviders {
                key: key@,
            },
            RecoveryAction::FindBundle { provider, key } => RecoveryActionModel::FindBundle {
                provider: provider@,
                key: key@,
            },
            RecoveryAction::ReadKept => RecoveryActionModel::ReadKept,
            RecoveryAction::Check { head, action } => RecoveryActionModel::Check { head, action },
            RecoveryAction::Pin { head, words, endpoint_floor } => RecoveryActionModel::Pin {
                head,
                words: words@,
                endpoint_floor,
            },
            RecoveryAction::ReadLocalEndpoints => RecoveryActionModel::ReadLocalEndpoints,
            RecoveryAction::FindEndpoints { member, key } => RecoveryActionModel::FindEndpoints {
                member,
                key: key@,
            },
            RecoveryAction::Learn { place, expires_at_unix_seconds } =>
                RecoveryActionModel::Learn { place, expires_at_unix_seconds },
            RecoveryAction::Adopt => RecoveryActionModel::Adopt,
            RecoveryAction::RecoverShards => RecoveryActionModel::RecoverShards,
            RecoveryAction::Install => RecoveryActionModel::Install,
            RecoveryAction::Restore { revision } => RecoveryActionModel::Restore { revision },
            RecoveryAction::Done(result) => RecoveryActionModel::Done(result),
            RecoveryAction::Pending(reason) => RecoveryActionModel::Pending(reason),
            RecoveryAction::Failed(error) => RecoveryActionModel::Failed(error),
        }
    }
}

/// What came of an action.
#[derive(Debug)]
pub enum RecoveryEvent {
    Providers(Vec<String>),
    Answer(BundleAnswer),
    Kept(Vec<KeptCandidate>),
    Check(CheckEvent),
    Pinned,
    LocalEndpoints(Vec<String>),
    /// The current record of a member, if there is one that counts.
    Endpoints(Option<EndpointSet>),
    /// Whether the endpoints of a member could be learned.
    Learned(bool),
    Adopted,
    Recovered,
    Installed,
    Restored,
    Failed,
}

/// What came of an action, as a plain value.
pub enum RecoveryEventModel {
    Providers(Seq<Seq<char>>),
    Answer(BundleModel),
    Kept(Seq<KeptCandidateModel>),
    Check(CheckEventModel),
    Pinned,
    LocalEndpoints(Seq<Seq<char>>),
    Endpoints(Option<(Seq<Seq<char>>, u64)>),
    Learned(bool),
    Adopted,
    Recovered,
    Installed,
    Restored,
    Failed,
}

impl RecoveryEvent {
    pub open spec fn view(&self) -> RecoveryEventModel {
        match *self {
            RecoveryEvent::Providers(providers) => RecoveryEventModel::Providers(
                texts(providers@),
            ),
            RecoveryEvent::Answer(answer) => RecoveryEventModel::Answer(answer@),
            RecoveryEvent::Kept(records) => RecoveryEventModel::Kept(
                kept_candidate_views(records@),
            ),
            RecoveryEvent::Check(event) => RecoveryEventModel::Check(event@),
            RecoveryEvent::Pinned => RecoveryEventModel::Pinned,
            RecoveryEvent::LocalEndpoints(endpoints) => RecoveryEventModel::LocalEndpoints(
                texts(endpoints@),
            ),
            RecoveryEvent::Endpoints(set) => RecoveryEventModel::Endpoints(set_view(set)),
            RecoveryEvent::Learned(learned) => RecoveryEventModel::Learned(learned),
            RecoveryEvent::Adopted => RecoveryEventModel::Adopted,
            RecoveryEvent::Recovered => RecoveryEventModel::Recovered,
            RecoveryEvent::Installed => RecoveryEventModel::Installed,
            RecoveryEvent::Restored => RecoveryEventModel::Restored,
            RecoveryEvent::Failed => RecoveryEventModel::Failed,
        }
    }
}

/// An attempt at recovery.
pub struct RecoveryAttempt {
    subject: Id32,
    asked: Vec<String>,
    rejected: TextSet,
    words: Vec<RecoveryCandidate>,
    details: Vec<CandidateDetails>,
    search: Option<HeadSearch>,
    chosen: Option<CertifiedState>,
    local_endpoints: Vec<String>,
    members: Vec<Id32>,
    current: Vec<Option<EndpointSet>>,
    roster: Vec<RosterEntry>,
    learned: Vec<usize>,
    stage: RecoveryStage,
}

/// An attempt at recovery, for contracts.
#[verifier::ext_equal]
pub struct AttemptModel {
    pub subject: Id32,
    /// The providers that are asked.
    pub asked: Seq<Seq<char>>,
    pub found: FoundModel,
    pub search: Option<SearchModel>,
    /// The state that is recovered.
    pub chosen: Option<CertifiedModel>,
    pub local_endpoints: Seq<Seq<char>>,
    /// The members but the node itself.
    pub members: Seq<Id32>,
    /// What was found of them.
    pub current: Seq<Option<(Seq<Seq<char>>, u64)>>,
    pub roster: Seq<RosterModel>,
    /// The places of members whose endpoints are learned.
    pub learned: Seq<usize>,
    pub stage: RecoveryStage,
}

impl AttemptModel {
    pub open spec fn wf(self) -> bool {
        &&& self.found.words.len() == self.found.details.len()
        &&& (self.stage matches RecoveryStage::Asking(at) ==> at < self.asked.len())
        &&& (self.search is Some) == (self.stage is Searching)
        &&& (self.search matches Some(search) ==> {
            &&& search.wf()
            &&& search.words == self.found.words
            &&& search.stage is Checking
        })
        &&& (self.chosen matches Some(state) ==> stood_for(state, self.found.words))
        &&& (self.chosen is Some ==> !self.undecided())
        &&& (self.certain() ==> self.chosen is Some)
        &&& (self.undecided() || self.stage is Pin || self.stage is LocalEndpoints || self.stage is Lookup
            ==> self.learned.len() == 0)
        &&& (self.stage is Lookup ==> self.members == other_members(
            self.chosen->0.members,
            self.subject,
        ))
        &&& (self.stage is Lookup ==> self.current.len() < self.members.len() && all_keyed(
            self.members,
        ))
        &&& (self.stage matches RecoveryStage::Restore(revision) ==> revision
            < self.chosen->0.revisions.len())
        &&& forall|i: int|
            0 <= i < self.learned.len() ==> #[trigger] self.learned[i] < self.roster.len()
                && self.roster[self.learned[i] as int].expires_at_unix_seconds is Some
        &&& (self.stage matches RecoveryStage::Learning(at) ==> at < self.learned.len())
    }

    /// The state to recover is still looked for.
    pub open spec fn undecided(self) -> bool {
        self.stage is Providers || self.stage is Asking || self.stage is Kept
            || self.stage is Searching
    }

    /// The state to recover is known.
    pub open spec fn certain(self) -> bool {
        match self.stage {
            RecoveryStage::Pin => true,
            RecoveryStage::LocalEndpoints => true,
            RecoveryStage::Lookup => true,
            RecoveryStage::Learning(_) => true,
            RecoveryStage::Adopt => true,
            RecoveryStage::Shards => true,
            RecoveryStage::Install => true,
            RecoveryStage::Restore(_) => true,
            RecoveryStage::Done(_) => true,
            _ => false,
        }
    }

    /// The highest number that the chosen publishers have seen of the node's
    /// endpoints.
    pub open spec fn endpoint_floor(self) -> u64 {
        floor_upto(
            self.chosen->0.words.map_values(
                |word: usize| self.found.details[word as int].endpoint_floor,
            ),
        )
    }

    /// What is needed next.
    pub open spec fn next(self) -> RecoveryActionModel {
        match self.stage {
            RecoveryStage::Providers => RecoveryActionModel::FindProviders {
                key: mailbox_key(self.subject),
            },
            RecoveryStage::Asking(at) => RecoveryActionModel::FindBundle {
                provider: self.asked[at as int],
                key: bundle_key(self.subject, self.asked[at as int]),
            },
            RecoveryStage::Kept => RecoveryActionModel::ReadKept,
            RecoveryStage::Searching => match self.search->0.next() {
                SearchAction::Check { head, action } => RecoveryActionModel::Check {
                    head,
                    action,
                },
                _ => RecoveryActionModel::Failed(RecoveryFailure::OutOfOrder),
            },
            RecoveryStage::Pin => RecoveryActionModel::Pin {
                head: self.chosen->0.head,
                words: self.chosen->0.words,
                endpoint_floor: self.endpoint_floor(),
            },
            RecoveryStage::LocalEndpoints => RecoveryActionModel::ReadLocalEndpoints,
            RecoveryStage::Lookup => RecoveryActionModel::FindEndpoints {
                member: self.members[self.current.len() as int],
                key: member_key(self.members[self.current.len() as int])->0,
            },
            RecoveryStage::Learning(at) => RecoveryActionModel::Learn {
                place: self.learned[at as int],
                expires_at_unix_seconds: self.roster[self.learned[at as int] as int]
                    .expires_at_unix_seconds->0,
            },
            RecoveryStage::Adopt => RecoveryActionModel::Adopt,
            RecoveryStage::Shards => RecoveryActionModel::RecoverShards,
            RecoveryStage::Install => RecoveryActionModel::Install,
            RecoveryStage::Restore(revision) => RecoveryActionModel::Restore { revision },
            RecoveryStage::Done(revision_id) => RecoveryActionModel::Done(
                DhtRecoveryResult {
                    guild_id: self.chosen->0.head.guild_id,
                    checkpoint_hash: self.chosen->0.head.checkpoint_hash,
                    generation: self.chosen->0.head.generation,
                    revision_id,
                },
            ),
            RecoveryStage::Pending(reason) => RecoveryActionModel::Pending(reason),
            RecoveryStage::Failed(error) => RecoveryActionModel::Failed(error),
        }
    }

    /// The attempt at another stage.
    pub open spec fn at(self, stage: RecoveryStage) -> AttemptModel {
        AttemptModel { stage, ..self }
    }

    /// The attempt, without what it was searching with, at another stage.
    pub open spec fn found_out(self, stage: RecoveryStage) -> AttemptModel {
        AttemptModel { search: None, stage, ..self }
    }

    /// The stage at a provider, or behind the last.
    pub open spec fn asking_stage(self, at: int) -> RecoveryStage {
        if at < self.asked.len() {
            RecoveryStage::Asking(at as usize)
        } else {
            RecoveryStage::Kept
        }
    }

    /// The attempt with a search that goes on or has ended.
    pub open spec fn with_search(self, search: SearchModel) -> AttemptModel {
        match search.stage {
            SearchStage::Checking(_, _) => AttemptModel {
                search: Some(search),
                stage: RecoveryStage::Searching,
                ..self
            },
            SearchStage::Found => AttemptModel { chosen: search.chosen, ..self }.found_out(
                RecoveryStage::Pin,
            ),
            SearchStage::Ambiguous(generation) => self.found_out(
                RecoveryStage::Failed(RecoveryFailure::Ambiguous(generation)),
            ),
            SearchStage::NothingConfirmed => self.found_out(
                RecoveryStage::Pending(RecoveryPending::NothingConfirmed),
            ),
            SearchStage::NothingCertified => self.found_out(
                RecoveryStage::Pending(RecoveryPending::NothingCertified),
            ),
        }
    }

    /// The attempt with what the node has kept itself.
    pub open spec fn with_kept(self, records: Seq<KeptCandidateModel>) -> AttemptModel {
        let found = self.found.with_all_kept(records);
        AttemptModel { found, ..self }.with_search(search_begun(found.words))
    }

    /// The roster of the recovered guild.
    pub open spec fn planned_roster(self) -> Seq<RosterModel> {
        self.chosen->0.members.map_values(
            |member: Id32|
                roster_entry(
                    self.found,
                    self.chosen->0,
                    self.subject,
                    self.local_endpoints,
                    self.current,
                    member,
                ),
        )
    }

    /// The stage at a member whose endpoints are learned, or behind the last.
    pub open spec fn learning_stage(self, at: int) -> RecoveryStage {
        if at < self.learned.len() {
            RecoveryStage::Learning(at as usize)
        } else {
            RecoveryStage::Adopt
        }
    }

    /// The attempt once all members were looked up.
    pub open spec fn with_roster(self) -> AttemptModel {
        let roster = self.planned_roster();
        let planned = AttemptModel { roster, learned: learned_places(roster), ..self };
        planned.at(planned.learning_stage(0))
    }

    /// The attempt, looking up the next member or past the last.
    pub open spec fn looking_up(self) -> AttemptModel {
        if self.current.len() < self.members.len() {
            self.at(RecoveryStage::Lookup)
        } else {
            self.with_roster()
        }
    }

    /// The attempt with where the node can be reached now: the other members
    /// must have an identity.
    pub open spec fn with_local_endpoints(self, endpoints: Seq<Seq<char>>) -> AttemptModel {
        let members = other_members(self.chosen->0.members, self.subject);
        let ready = AttemptModel {
            local_endpoints: endpoints,
            members,
            current: Seq::empty(),
            ..self
        };
        if all_keyed(members) {
            ready.looking_up()
        } else {
            ready.at(RecoveryStage::Failed(RecoveryFailure::NoIdentity))
        }
    }

    /// The attempt once the endpoints of a member were learned, or could not
    /// be: these are dropped.
    pub open spec fn with_learned(self, at: usize, learned: bool) -> AttemptModel {
        let place = self.learned[at as int] as int;
        let roster = if learned {
            self.roster
        } else {
            self.roster.update(place, RosterModel { endpoints: Seq::empty(), ..self.roster[place] })
        };
        AttemptModel { roster, ..self }.at(self.learning_stage(at + 1))
    }

    /// The stage after the state was installed: the latest revision of the node
    /// is restored, if it has one.
    pub open spec fn restoring_stage(self) -> RecoveryStage {
        match latest_place(self.chosen->0.revisions, self.subject) {
            Some(place) => RecoveryStage::Restore(place as usize),
            None => RecoveryStage::Done(None),
        }
    }

    /// The attempt after an event.
    pub open spec fn after(self, event: RecoveryEventModel) -> AttemptModel {
        match (self.stage, event) {
            (RecoveryStage::Done(_), _) => self,
            (RecoveryStage::Pending(_), _) => self,
            (RecoveryStage::Failed(_), _) => self,
            (RecoveryStage::Providers, RecoveryEventModel::Failed) => self.at(
                RecoveryStage::Pending(RecoveryPending::ProvidersNotReady),
            ),
            (_, RecoveryEventModel::Failed) => self.found_out(
                RecoveryStage::Failed(RecoveryFailure::Outside),
            ),
            (RecoveryStage::Providers, RecoveryEventModel::Providers(providers)) => {
                let asking = AttemptModel { asked: providers, ..self };
                asking.at(asking.asking_stage(0))
            },
            (RecoveryStage::Asking(at), RecoveryEventModel::Answer(answer)) => AttemptModel {
                found: self.found.answered(self.asked[at as int], answer),
                stage: self.asking_stage(at + 1),
                ..self
            },
            (RecoveryStage::Kept, RecoveryEventModel::Kept(records)) => self.with_kept(records),
            (RecoveryStage::Searching, RecoveryEventModel::Check(event)) => self.with_search(
                self.search->0.after(event),
            ),
            (RecoveryStage::Pin, RecoveryEventModel::Pinned) => self.at(
                RecoveryStage::LocalEndpoints,
            ),
            (RecoveryStage::LocalEndpoints, RecoveryEventModel::LocalEndpoints(endpoints)) =>
                self.with_local_endpoints(endpoints),
            (RecoveryStage::Lookup, RecoveryEventModel::Endpoints(set)) => AttemptModel {
                current: self.current.push(set),
                ..self
            }.looking_up(),
            (RecoveryStage::Learning(at), RecoveryEventModel::Learned(learned)) =>
                self.with_learned(at, learned),
            (RecoveryStage::Adopt, RecoveryEventModel::Adopted) => self.at(RecoveryStage::Shards),
            (RecoveryStage::Shards, RecoveryEventModel::Recovered) => self.at(
                RecoveryStage::Install,
            ),
            (RecoveryStage::Install, RecoveryEventModel::Installed) => self.at(
                self.restoring_stage(),
            ),
            (RecoveryStage::Restore(revision), RecoveryEventModel::Restored) => self.at(
                RecoveryStage::Done(
                    Some(self.chosen->0.revisions[revision as int].revision_id),
                ),
            ),
            _ => self.found_out(RecoveryStage::Failed(RecoveryFailure::OutOfOrder)),
        }
    }
}

/// An attempt that has just begun.
pub open spec fn attempt_begun(subject: Id32) -> AttemptModel {
    AttemptModel {
        subject,
        asked: Seq::empty(),
        found: FoundModel {
            rejected: Set::empty(),
            words: Seq::empty(),
            details: Seq::empty(),
        },
        search: None,
        chosen: None,
        local_endpoints: Seq::empty(),
        members: Seq::empty(),
        current: Seq::empty(),
        roster: Seq::empty(),
        learned: Seq::empty(),
        stage: RecoveryStage::Providers,
    }
}

/// Begins an attempt at recovering a node.
pub fn recover_from_dht_once(subject: Id32) -> (attempt: RecoveryAttempt)
    ensures
        attempt@ == attempt_begun(subject),
        attempt.wf(),
{
    let attempt = RecoveryAttempt {
        subject,
        asked: Vec::new(),
        rejected: TextSet::new(),
        words: Vec::new(),
        details: Vec::new(),
        search: None,
        chosen: None,
        local_endpoints: Vec::new(),
        members: Vec::new(),
        current: Vec::new(),
        roster: Vec::new(),
        learned: Vec::new(),
        stage: RecoveryStage::Providers,
    };
    assert(attempt@ =~= attempt_begun(subject));
    attempt
}

fn has_word_by(words: &Vec<RecoveryCandidate>, publisher: &Id32) -> (result: bool)
    ensures
        result == has_spoken(words@, *publisher),
{
    let mut i: usize = 0;
    while i < words.len()
        invariant
            i <= words@.len(),
            forall|k: int| 0 <= k < i ==> (#[trigger] words@[k]).publisher != *publisher,
        decreases words@.len() - i,
    {
        if words[i].publisher.equals(publisher) {
            assert(words@[i as int].publisher == *publisher);
            return true;
        }
        i += 1;
    }
    false
}

fn find_word(chosen: &Vec<usize>, words: &Vec<RecoveryCandidate>, member: &Id32) -> (word: Option<
    usize,
>)
    requires
        forall|i: int| 0 <= i < chosen@.len() ==> #[trigger] chosen@[i] < words@.len(),
    ensures
        word == word_by(chosen@, words@, *member),
        word matches Some(word) ==> word < words@.len(),
{
    let mut word: Option<usize> = None;
    let mut i: usize = 0;
    assert(chosen@.take(0) =~= Seq::empty());
    while i < chosen.len()
        invariant
            i <= chosen@.len(),
            forall|i: int| 0 <= i < chosen@.len() ==> #[trigger] chosen@[i] < words@.len(),
            word == word_by(chosen@.take(i as int), words@, *member),
            word matches Some(word) ==> word < words@.len(),
        decreases chosen@.len() - i,
    {
        assert(chosen@.take(i + 1).drop_last() =~= chosen@.take(i as int));
        if word.is_none() && words[chosen[i]].publisher.equals(member) {
            word = Some(chosen[i]);
        }
        i += 1;
    }
    assert(chosen@.take(i as int) =~= chosen@);
    word
}

fn empty_entry(node: Id32) -> (entry: RosterEntry)
    ensures
        entry@ == (RosterModel {
            node,
            endpoints: Seq::empty(),
            expires_at_unix_seconds: None,
        }),
{
    let entry = RosterEntry { node, endpoints: Vec::new(), expires_at_unix_seconds: None };
    assert(texts(entry.endpoints@) =~= Seq::empty());
    entry
}

fn copy_texts(list: &Vec<String>) -> (copy: Vec<String>)
    ensures
        texts(copy@) == texts(list@),
{
    let ghost all = texts(list@);
    let mut copy: Vec<String> = Vec::new();
    let mut i: usize = 0;
    assert(texts(copy@) =~= all.take(0));
    while i < list.len()
        invariant
            i <= list@.len(),
            all == texts(list@),
            texts(copy@) == all.take(i as int),
        decreases list@.len() - i,
    {
        let ghost before = texts(copy@);
        let text = list[i].clone();
        let ghost view = text@;
        copy.push(text);
        proof {
            assert(texts(copy@) =~= before.push(view));
            assert(all[i as int] == view);
            assert(all.take(i + 1) =~= before.push(view));
        }
        i += 1;
    }
    assert(all.take(i as int) =~= all);
    copy
}

impl RecoveryAttempt {
    pub closed spec fn view(&self) -> AttemptModel {
        AttemptModel {
            subject: self.subject,
            asked: texts(self.asked@),
            found: FoundModel {
                rejected: self.rejected@,
                words: self.words@,
                details: details_views(self.details@),
            },
            search: match self.search {
                Some(search) => Some(search@),
                None => None,
            },
            chosen: certified_view(self.chosen),
            local_endpoints: texts(self.local_endpoints@),
            members: self.members@,
            current: set_views(self.current@),
            roster: roster_views(self.roster@),
            learned: self.learned@,
            stage: self.stage,
        }
    }

    pub closed spec fn wf(&self) -> bool {
        self.rejected.wf() && self@.wf()
    }

    /// The members of the recovered guild, with their endpoints.
    pub fn roster(&self) -> (roster: &Vec<RosterEntry>)
        ensures
            roster_views(roster@) == self@.roster,
    {
        &self.roster
    }

    fn pin(&self) -> (action: RecoveryAction)
        requires
            self.wf(),
            self@.stage is Pin,
        ensures
            action@ == self@.next(),
    {
        let mut floors: Vec<u64> = Vec::new();
        let mut words: Vec<usize> = Vec::new();
        match &self.chosen {
            Some(state) => {
                push_copies(&mut words, &state.words);
                assert(words@ =~= state.words@);
                let ghost all = words@.map_values(
                    |word: usize| self@.found.details[word as int].endpoint_floor,
                );
                let mut i: usize = 0;
                while i < words.len()
                    invariant
                        i <= words@.len(),
                        self.wf(),
                        stood_for(self@.chosen->0, self@.found.words),
                        words@ == self@.chosen->0.words,
                        all == words@.map_values(
                            |word: usize| self@.found.details[word as int].endpoint_floor,
                        ),
                        floors@ == all.take(i as int),
                    decreases words@.len() - i,
                {
                    let word: usize = words[i];
                    assert(self@.chosen->0.words[i as int] < self@.found.words.len());
                    assert(self@.found.details[word as int] == self.details@[word as int]@);
                    floors.push(self.details[word].endpoint_floor);
                    assert(all.take(i + 1) =~= all.take(i as int).push(all[i as int]));
                    i += 1;
                }
                assert(all.take(i as int) =~= all);
                let endpoint_floor: u64 = recovered_endpoint_floor(&floors);
                RecoveryAction::Pin { head: state.head, words, endpoint_floor }
            },
            None => RecoveryAction::Failed(RecoveryFailure::OutOfOrder),
        }
    }

    fn done(&self, revision_id: Option<u128>) -> (action: RecoveryAction)
        requires
            self.wf(),
            self@.stage == RecoveryStage::Done(revision_id),
        ensures
            action@ == self@.next(),
    {
        match &self.chosen {
            Some(state) => RecoveryAction::Done(
                DhtRecoveryResult {
                    guild_id: state.head.guild_id,
                    checkpoint_hash: state.head.checkpoint_hash,
                    generation: state.head.generation,
                    revision_id,
                },
            ),
            None => RecoveryAction::Failed(RecoveryFailure::OutOfOrder),
        }
    }

    /// What is needed next.
    pub fn next(&self) -> (action: RecoveryAction)
        requires
            self.wf(),
        ensures
            action@ == self@.next(),
    {
        match self.stage {
            RecoveryStage::Providers => RecoveryAction::FindProviders {
                key: recovery_mailbox_key(&self.subject),
            },
            RecoveryStage::Asking(at) => {
                let provider = self.asked[at].clone();
                let key = recovery_bundle_key(&self.subject, provider.as_str());
                RecoveryAction::FindBundle { provider, key }
            },
            RecoveryStage::Kept => RecoveryAction::ReadKept,
            RecoveryStage::Searching => match &self.search {
                Some(search) => match search.next() {
                    SearchAction::Check { head, action } => RecoveryAction::Check { head, action },
                    _ => RecoveryAction::Failed(RecoveryFailure::OutOfOrder),
                },
                None => RecoveryAction::Failed(RecoveryFailure::OutOfOrder),
            },
            RecoveryStage::Pin => self.pin(),
            RecoveryStage::LocalEndpoints => RecoveryAction::ReadLocalEndpoints,
            RecoveryStage::Lookup => {
                let member = self.members[self.current.len()];
                assert(member_key(self@.members[self.current.len() as int]) is Some);
                match member_record_key(&member) {
                    Some(key) => RecoveryAction::FindEndpoints { member, key },
                    None => RecoveryAction::Failed(RecoveryFailure::NoIdentity),
                }
            },
            RecoveryStage::Learning(at) => {
                let place: usize = self.learned[at];
                assert(self@.learned[at as int] < self@.roster.len());
                assert(self@.roster[place as int] == self.roster@[place as int]@);
                match self.roster[place].expires_at_unix_seconds {
                    Some(expires_at_unix_seconds) => RecoveryAction::Learn {
                        place,
                        expires_at_unix_seconds,
                    },
                    None => RecoveryAction::Failed(RecoveryFailure::OutOfOrder),
                }
            },
            RecoveryStage::Adopt => RecoveryAction::Adopt,
            RecoveryStage::Shards => RecoveryAction::RecoverShards,
            RecoveryStage::Install => RecoveryAction::Install,
            RecoveryStage::Restore(revision) => RecoveryAction::Restore { revision },
            RecoveryStage::Done(revision_id) => self.done(revision_id),
            RecoveryStage::Pending(reason) => RecoveryAction::Pending(reason),
            RecoveryStage::Failed(error) => RecoveryAction::Failed(error),
        }
    }

    fn count(&mut self, found: FoundCandidate)
        ensures
            final(self)@ == (AttemptModel {
                found: old(self)@.found.counting(found.word, found.details@),
                ..old(self)@
            }),
            final(self).rejected == old(self).rejected,
    {
        let ghost before = details_views(self.details@);
        let ghost view = found.details@;
        self.words.push(found.word);
        self.details.push(found.details);
        assert(details_views(self.details@) =~= before.push(view));
    }

    fn take_answer(&mut self, at: usize, answer: BundleAnswer)
        requires
            old(self).wf(),
            old(self)@.stage == RecoveryStage::Asking(at),
        ensures
            final(self).wf(),
            final(self)@ == old(self)@.after(RecoveryEventModel::Answer(answer@)),
    {
        assert(at < self.asked.len());
        let stage = if at + 1 < self.asked.len() {
            RecoveryStage::Asking(at + 1)
        } else {
            RecoveryStage::Kept
        };
        match answer {
            BundleAnswer::Nothing => {},
            BundleAnswer::Conflicting => {
                let provider = self.asked[at].clone();
                assert(provider@ == self@.asked[at as int]);
                let _ = self.rejected.insert(provider);
            },
            BundleAnswer::Candidate(found) => {
                self.count(found);
            },
        }
        self.stage = stage;
    }

    fn settle_search(&mut self, search: HeadSearch)
        requires
            old(self).rejected.wf(),
            old(self)@.search is None,
            old(self)@.found.words.len() == old(self)@.found.details.len(),
            old(self)@.chosen is None,
            old(self)@.learned.len() == 0,
            search@.wf(),
            search@.words == old(self)@.found.words,
        ensures
            final(self).wf(),
            final(self)@ == old(self)@.with_search(search@),
    {
        match search.next() {
            SearchAction::Check { .. } => {
                self.search = Some(search);
                self.stage = RecoveryStage::Searching;
            },
            SearchAction::Found => {
                self.chosen = search.outcome();
                self.stage = RecoveryStage::Pin;
            },
            SearchAction::Ambiguous(generation) => {
                self.stage = RecoveryStage::Failed(RecoveryFailure::Ambiguous(generation));
            },
            SearchAction::NothingConfirmed => {
                self.stage = RecoveryStage::Pending(RecoveryPending::NothingConfirmed);
            },
            SearchAction::NothingCertified => {
                self.stage = RecoveryStage::Pending(RecoveryPending::NothingCertified);
            },
        }
    }

    fn take_kept(&mut self, records: Vec<KeptCandidate>)
        requires
            old(self).wf(),
            old(self)@.stage is Kept,
            old(self)@.chosen is None,
            old(self)@.learned.len() == 0,
        ensures
            final(self).wf(),
            final(self)@ == old(self)@.with_kept(kept_candidate_views(records@)),
    {
        let ghost all = kept_candidate_views(records@);
        let ghost start = self@;
        let ghost total = records@;
        let mut waiting: Vec<KeptCandidate> = Vec::new();
        let mut records = records;
        while records.len() > 0
            invariant
                records@.len() + waiting@.len() == total.len(),
                records@ == total.take(records@.len() as int),
                forall|k: int|
                    0 <= k < waiting@.len() ==> #[trigger] waiting@[k] == total[total.len() - 1
                        - k],
            decreases records@.len(),
        {
            if let Some(record) = records.pop() {
                waiting.push(record);
            }
            assert(records@ =~= total.take(records@.len() as int));
        }
        assert(all.take(0) =~= Seq::empty());
        while waiting.len() > 0
            invariant
                waiting@.len() <= total.len(),
                all == kept_candidate_views(total),
                forall|k: int|
                    0 <= k < waiting@.len() ==> #[trigger] waiting@[k] == total[total.len() - 1
                        - k],
                self.rejected.wf(),
                self@ == (AttemptModel {
                    found: start.found.with_all_kept(all.take(total.len() - waiting@.len())),
                    ..start
                }),
                self@.found.words.len() == self@.found.details.len(),
            decreases waiting@.len(),
        {
            let ghost n = total.len() - waiting@.len();
            if let Some(record) = waiting.pop() {
                proof {
                    assert(record == total[n]);
                    assert(all.take(n + 1).drop_last() =~= all.take(n));
                    assert(all.take(n + 1).last() == record@);
                }
                if !self.rejected.contains(&record.provider) && !has_word_by(
                    &self.words,
                    &record.publisher,
                ) {
                    if let Some(found) = record.found {
                        self.count(found);
                    }
                }
            }
        }
        assert(all.take(total.len() as int) =~= all);
        let mut words: Vec<RecoveryCandidate> = Vec::new();
        push_copies(&mut words, &self.words);
        assert(words@ =~= self.words@);
        let search = search_head(words);
        self.settle_search(search);
    }

    fn take_check(&mut self, event: CheckEvent)
        requires
            old(self).wf(),
            old(self)@.stage is Searching,
            old(self)@.chosen is None,
            old(self)@.learned.len() == 0,
        ensures
            final(self).wf(),
            final(self)@ == old(self)@.after(RecoveryEventModel::Check(event@)),
    {
        if let Some(mut search) = self.search.take() {
            search.take(event);
            self.settle_search(search);
        }
    }

    fn plan_entry(&self, state: &CertifiedState, member: Id32) -> (entry: RosterEntry)
        requires
            self@.found.words.len() == self@.found.details.len(),
            stood_for(state@, self@.found.words),
            self@.members == other_members(state@.members, self@.subject),
        ensures
            entry@ == roster_entry(
                self@.found,
                state@,
                self@.subject,
                self@.local_endpoints,
                self@.current,
                member,
            ),
    {
        if member.equals(&self.subject) {
            return RosterEntry {
                node: member,
                endpoints: copy_texts(&self.local_endpoints),
                expires_at_unix_seconds: None,
            };
        }
        let place = crate::commit::place_of(&self.members, &member);
        if let Some(place) = place {
            if place < self.current.len() {
                assert(self@.current[place as int] == set_view(self.current@[place as int]));
                if let Some(set) = &self.current[place] {
                    return RosterEntry {
                        node: member,
                        endpoints: usable_endpoints(&set.endpoints).0,
                        expires_at_unix_seconds: Some(set.expires_at_unix_seconds),
                    };
                }
            }
        }
        match find_word(&state.words, &self.words, &member) {
            Some(word) => {
                assert(self@.found.details[word as int] == self.details@[word as int]@);
                let details = &self.details[word];
                RosterEntry {
                    node: member,
                    endpoints: usable_endpoints(&details.endpoints).0,
                    expires_at_unix_seconds: Some(details.expires_at_unix_seconds),
                }
            },
            None => empty_entry(member),
        }
    }

    fn plan_roster(&mut self)
        requires
            old(self).rejected.wf(),
            old(self)@.search is None,
            old(self)@.chosen is Some,
            old(self)@.found.words.len() == old(self)@.found.details.len(),
            stood_for(old(self)@.chosen->0, old(self)@.found.words),
            old(self)@.members == other_members(
                old(self)@.chosen->0.members,
                old(self)@.subject,
            ),
        ensures
            final(self).wf(),
            final(self)@ == old(self)@.with_roster(),
    {
        let ghost start = self@;
        let ghost all = start.planned_roster();
        let mut roster: Vec<RosterEntry> = Vec::new();
        let mut learned: Vec<usize> = Vec::new();
        assert(roster_views(roster@) =~= all.take(0));
        assert(all.take(0) =~= Seq::empty());
        if let Some(state) = &self.chosen {
            let mut i: usize = 0;
            while i < state.members.len()
                invariant
                    i <= state.members@.len(),
                    self@ == start,
                    start.chosen == Some(state@),
                    start.found.words.len() == start.found.details.len(),
                    stood_for(state@, start.found.words),
                    start.members == other_members(state@.members, start.subject),
                    all == start.planned_roster(),
                    roster_views(roster@) == all.take(i as int),
                    roster@.len() == i,
                    learned@ == learned_places(all.take(i as int)),
                    forall|k: int|
                        0 <= k < learned@.len() ==> #[trigger] learned@[k] < i
                            && all[learned@[k] as int].expires_at_unix_seconds is Some,
                decreases state.members@.len() - i,
            {
                let ghost before = roster_views(roster@);
                let entry = self.plan_entry(state, state.members[i]);
                let ghost view = entry@;
                if entry.expires_at_unix_seconds.is_some() {
                    learned.push(i);
                }
                roster.push(entry);
                proof {
                    assert(roster_views(roster@) =~= before.push(view));
                    assert(all[i as int] == view);
                    assert(all.take(i + 1) =~= before.push(view));
                    assert(all.take(i + 1).drop_last() =~= all.take(i as int));
                }
                i += 1;
            }
            assert(all.take(i as int) =~= all);
        }
        self.stage = if learned.len() > 0 {
            RecoveryStage::Learning(0)
        } else {
            RecoveryStage::Adopt
        };
        self.roster = roster;
        self.learned = learned;
    }

    fn look_up(&mut self)
        requires
            old(self).rejected.wf(),
            old(self)@.search is None,
            old(self)@.chosen is Some,
            old(self)@.learned.len() == 0,
            old(self)@.found.words.len() == old(self)@.found.details.len(),
            stood_for(old(self)@.chosen->0, old(self)@.found.words),
            old(self)@.members == other_members(
                old(self)@.chosen->0.members,
                old(self)@.subject,
            ),
            all_keyed(old(self)@.members),
        ensures
            final(self).wf(),
            final(self)@ == old(self)@.looking_up(),
    {
        if self.current.len() < self.members.len() {
            self.stage = RecoveryStage::Lookup;
        } else {
            self.plan_roster();
        }
    }

    fn take_local_endpoints(&mut self, endpoints: Vec<String>)
        requires
            old(self).wf(),
            old(self)@.stage is LocalEndpoints,
            old(self)@.learned.len() == 0,
        ensures
            final(self).wf(),
            final(self)@ == old(self)@.with_local_endpoints(texts(endpoints@)),
    {
        if let Some(state) = &self.chosen {
            self.members = members_to_ask(true, &state.members, &self.subject);
        }
        self.local_endpoints = endpoints;
        self.current = Vec::new();
        assert(set_views(self.current@) =~= Seq::empty());
        if each_keyed(&self.members) {
            self.look_up();
        } else {
            self.stage = RecoveryStage::Failed(RecoveryFailure::NoIdentity);
        }
    }

    fn take_endpoints(&mut self, set: Option<EndpointSet>)
        requires
            old(self).wf(),
            old(self)@.stage is Lookup,
            old(self)@.learned.len() == 0,
            old(self)@.members == other_members(
                old(self)@.chosen->0.members,
                old(self)@.subject,
            ),
        ensures
            final(self).wf(),
            final(self)@ == old(self)@.after(RecoveryEventModel::Endpoints(set_view(set))),
    {
        let ghost before = set_views(self.current@);
        let ghost view = set_view(set);
        self.current.push(set);
        assert(set_views(self.current@) =~= before.push(view));
        self.look_up();
    }

    fn take_learned(&mut self, at: usize, learned: bool)
        requires
            old(self).wf(),
            old(self)@.stage == RecoveryStage::Learning(at),
        ensures
            final(self).wf(),
            final(self)@ == old(self)@.with_learned(at, learned),
    {
        assert(at < self.learned.len());
        let place: usize = self.learned[at];
        assert(self@.learned[at as int] < self@.roster.len());
        if !learned {
            let ghost before = roster_views(self.roster@);
            assert(before[place as int] == self.roster@[place as int]@);
            let entry = RosterEntry {
                node: self.roster[place].node,
                endpoints: Vec::new(),
                expires_at_unix_seconds: self.roster[place].expires_at_unix_seconds,
            };
            let ghost view = entry@;
            assert(texts(entry.endpoints@) =~= Seq::empty());
            self.roster.set(place, entry);
            assert(roster_views(self.roster@) =~= before.update(place as int, view));
        }
        self.stage = if at + 1 < self.learned.len() {
            RecoveryStage::Learning(at + 1)
        } else {
            RecoveryStage::Adopt
        };
    }

    fn take_installed(&mut self)
        requires
            old(self).wf(),
            old(self)@.stage is Install,
        ensures
            final(self).wf(),
            final(self)@ == old(self)@.at(old(self)@.restoring_stage()),
    {
        let mut stage = RecoveryStage::Done(None);
        if let Some(state) = &self.chosen {
            let place = latest_revision(&state.revisions, &self.subject);
            proof {
                lemma_latest_place(state.revisions@, self.subject, place);
            }
            if let Some(place) = place {
                stage = RecoveryStage::Restore(place);
            }
        }
        self.stage = stage;
    }

    fn take_restored(&mut self, revision: usize)
        requires
            old(self).wf(),
            old(self)@.stage == RecoveryStage::Restore(revision),
        ensures
            final(self).wf(),
            final(self)@ == old(self)@.after(RecoveryEventModel::Restored),
    {
        let mut revision_id: Option<u128> = None;
        if let Some(state) = &self.chosen {
            revision_id = Some(state.revisions[revision].revision_id);
        }
        self.stage = RecoveryStage::Done(revision_id);
    }

    fn go_to(&mut self, stage: RecoveryStage)
        requires
            old(self).wf(),
            old(self)@.at(stage).wf(),
        ensures
            final(self).wf(),
            final(self)@ == old(self)@.at(stage),
    {
        self.stage = stage;
    }

    fn fail(&mut self, error: RecoveryFailure)
        requires
            old(self).wf(),
        ensures
            final(self).wf(),
            final(self)@ == old(self)@.found_out(RecoveryStage::Failed(error)),
    {
        self.search = None;
        self.stage = RecoveryStage::Failed(error);
    }

    /// Takes what came of the last action.
    pub fn take(&mut self, event: RecoveryEvent)
        requires
            old(self).wf(),
        ensures
            final(self).wf(),
            final(self)@ == old(self)@.after(event@),
    {
        match (self.stage, event) {
            (RecoveryStage::Done(_), _) => {},
            (RecoveryStage::Pending(_), _) => {},
            (RecoveryStage::Failed(_), _) => {},
            (RecoveryStage::Providers, RecoveryEvent::Failed) => {
                self.go_to(RecoveryStage::Pending(RecoveryPending::ProvidersNotReady));
            },
            (_, RecoveryEvent::Failed) => {
                self.fail(RecoveryFailure::Outside);
            },
            (RecoveryStage::Providers, RecoveryEvent::Providers(providers)) => {
                self.stage = if providers.len() > 0 {
                    RecoveryStage::Asking(0)
                } else {
                    RecoveryStage::Kept
                };
                self.asked = providers;
            },
            (RecoveryStage::Asking(at), RecoveryEvent::Answer(answer)) => {
                self.take_answer(at, answer);
            },
            (RecoveryStage::Kept, RecoveryEvent::Kept(records)) => {
                self.take_kept(records);
            },
            (RecoveryStage::Searching, RecoveryEvent::Check(event)) => {
                self.take_check(event);
            },
            (RecoveryStage::Pin, RecoveryEvent::Pinned) => {
                self.go_to(RecoveryStage::LocalEndpoints);
            },
            (RecoveryStage::LocalEndpoints, RecoveryEvent::LocalEndpoints(endpoints)) => {
                self.take_local_endpoints(endpoints);
            },
            (RecoveryStage::Lookup, RecoveryEvent::Endpoints(set)) => {
                self.take_endpoints(set);
            },
            (RecoveryStage::Learning(at), RecoveryEvent::Learned(learned)) => {
                self.take_learned(at, learned);
            },
            (RecoveryStage::Adopt, RecoveryEvent::Adopted) => {
                self.go_to(RecoveryStage::Shards);
            },
            (RecoveryStage::Shards, RecoveryEvent::Recovered) => {
                self.go_to(RecoveryStage::Install);
            },
            (RecoveryStage::Install, RecoveryEvent::Installed) => {
                self.take_installed();
            },
            (RecoveryStage::Restore(revision), RecoveryEvent::Restored) => {
                self.take_restored(revision);
            },
            _ => {
                self.fail(RecoveryFailure::OutOfOrder);
            },
        }
    }
}

/// Once a state was chosen, three different publishers stand behind it, it
/// stays the one that is recovered, and what they said stays as it was.
pub proof fn three_publishers_stand_behind_what_is_recovered(
    attempt: AttemptModel,
    event: RecoveryEventModel,
)
    requires
        attempt.wf(),
    ensures
        attempt.certain() ==> {
            &&& attempt.chosen matches Some(state) && stood_for(state, attempt.found.words)
            &&& attempt.after(event).chosen == attempt.chosen
            &&& attempt.after(event).found == attempt.found
        },
{
}

/// An attempt that has ended stays as it is; and only one that found no guild
/// yet is worth repeating.
pub proof fn an_attempt_ends_once(attempt: AttemptModel, event: RecoveryEventModel)
    requires
        attempt.wf(),
    ensures
        attempt.stage is Done || attempt.stage is Pending || attempt.stage is Failed
            ==> attempt.after(event) == attempt,
        attempt.certain() ==> !(attempt.after(event).stage is Pending),
{
}

/// What the node has kept itself never speaks for a provider that contradicted
/// itself, nor for a publisher that has spoken.
pub proof fn kept_words_only_fill_gaps(found: FoundModel, record: KeptCandidateModel)
    ensures
        found.rejected.contains(record.provider) ==> found.with_kept(record) == found,
        has_spoken(found.words, record.publisher) ==> found.with_kept(record) == found,
        found.words.is_prefix_of(found.with_kept(record).words),
{
}

/// A recovering node looks where others publish: for providers under the key
/// under which those stand who keep a record about it, for the record of a
/// provider under the key under which that provider puts it, and for the
/// endpoints of a member under the key under which that member puts them.
pub proof fn what_was_published_is_looked_for(publisher: PublishModel, attempt: AttemptModel)
    ensures
        publisher.next() matches PublishActionModel::Provide { subject, key }
            ==> attempt.stage is Providers && subject == attempt.subject ==> attempt.next() == (
        RecoveryActionModel::FindProviders { key }),
        publisher.next() matches PublishActionModel::PutBundle { subject, key, .. } ==> (
        attempt.stage matches RecoveryStage::Asking(at) ==> subject == attempt.subject
            && attempt.asked[at as int] == publisher.local_peer ==> attempt.next() == (
        RecoveryActionModel::FindBundle { provider: publisher.local_peer, key })),
        publisher.next() matches PublishActionModel::PutEndpoint { key, .. } ==> (
        attempt.stage is Lookup ==> ({
            let member = attempt.members[attempt.current.len() as int];
            peer_of_key(member@) matches Some(peer) && peer_text(peer) == publisher.local_peer
                ==> attempt.next() == (RecoveryActionModel::FindEndpoints { member, key })
        })),
{
}

/// An attempt after events, one after another.
pub open spec fn attempted(subject: Id32, events: Seq<RecoveryEventModel>) -> AttemptModel
    decreases events.len(),
{
    if events.len() == 0 {
        attempt_begun(subject)
    } else {
        attempted(subject, events.drop_last()).after(events.last())
    }
}

/// An attempt searches, or has chosen, with these answers to its checks.
pub open spec fn led_to(attempt: AttemptModel, checks: Seq<CheckEventModel>) -> bool {
    &&& (attempt.search matches Some(search) ==> search == searched(attempt.found.words, checks))
    &&& (attempt.chosen is Some ==> {
        &&& searched(attempt.found.words, checks).stage is Found
        &&& searched(attempt.found.words, checks).chosen == attempt.chosen
    })
}

proof fn lemma_answers_behind(subject: Id32, events: Seq<RecoveryEventModel>) -> (checks: Seq<
    CheckEventModel,
>)
    ensures
        led_to(attempted(subject, events), checks),
        attempted(subject, events).undecided() ==> attempted(subject, events).chosen is None,
        attempted(subject, events).search is Some <==> attempted(subject, events).stage is Searching,
    decreases events.len(),
{
    if events.len() == 0 {
        Seq::empty()
    } else {
        let before = attempted(subject, events.drop_last());
        let checks = lemma_answers_behind(subject, events.drop_last());
        let event = events.last();
        match (before.stage, event) {
            (RecoveryStage::Searching, RecoveryEventModel::Check(check)) => {
                let longer = checks.push(check);
                assert(longer.drop_last() =~= checks);
                assert(searched(before.found.words, longer) == before.search->0.after(check));
                longer
            },
            (RecoveryStage::Kept, RecoveryEventModel::Kept(_)) => Seq::empty(),
            _ => checks,
        }
    }
}

/// Whatever the network answered, a state that an attempt recovers is the only
/// one that was certified: every state that is tried at its generation or at a
/// later one was checked, and no other was certified.
pub proof fn the_latest_certified_state_is_recovered(
    subject: Id32,
    events: Seq<RecoveryEventModel>,
)
    requires
        attempted(subject, events).found.words.len() <= usize::MAX,
        attempted(subject, events).chosen is Some,
    ensures
        ({
            let attempt = attempted(subject, events);
            let words = attempt.found.words;
            let state = attempt.chosen->0;
            exists|checks: Seq<CheckEventModel>| #[trigger]
                led_to(attempt, checks) && certified_among(checked(words, checks)) == seq![state]
                    && is_tried(words, state.head) && forall|head: RecoveryHead| #[trigger]
                    is_tried(words, head) && head.generation >= state.head.generation
                        ==> was_checked(checked(words, checks), head)
        }),
{
    let checks = lemma_answers_behind(subject, events);
    let attempt = attempted(subject, events);
    a_search_finds_the_latest_certified_state(attempt.found.words, checks);
    assert(led_to(attempt, checks));
}

/// An attempt asks for those who keep records about the node, then each of them
/// for its record, in order, and then reads what the node has kept itself. Where
/// nobody can be asked for, the attempt is repeated later.
pub proof fn an_attempt_asks_every_provider(
    attempt: AttemptModel,
    subject: Id32,
    providers: Seq<Seq<char>>,
    answer: BundleModel,
)
    requires
        attempt.wf(),
        attempt.asked.len() <= usize::MAX,
        providers.len() <= usize::MAX,
    ensures
        attempt_begun(subject).next() == (RecoveryActionModel::FindProviders {
            key: mailbox_key(subject),
        }),
        attempt_begun(subject).subject == subject,
        attempt.next() is FindProviders ==> {
            let after = attempt.after(RecoveryEventModel::Providers(providers));
            &&& after.asked == providers
            &&& attempt.after(RecoveryEventModel::Failed).next() == RecoveryActionModel::Pending(
                RecoveryPending::ProvidersNotReady,
            )
            &&& if providers.len() == 0 {
                after.next() is ReadKept
            } else {
                after.stage == RecoveryStage::Asking(0) && after.next() == (
                RecoveryActionModel::FindBundle {
                    provider: providers[0],
                    key: bundle_key(attempt.subject, providers[0]),
                })
            }
        },
        attempt.stage matches RecoveryStage::Asking(at) ==> {
            let after = attempt.after(RecoveryEventModel::Answer(answer));
            &&& attempt.next() == (RecoveryActionModel::FindBundle {
                provider: attempt.asked[at as int],
                key: bundle_key(attempt.subject, attempt.asked[at as int]),
            })
            &&& after.found.words == (match answer {
                BundleModel::Candidate(word, _) => attempt.found.words.push(word),
                _ => attempt.found.words,
            })
            &&& after.found.details == (match answer {
                BundleModel::Candidate(_, details) => attempt.found.details.push(details),
                _ => attempt.found.details,
            })
            &&& after.found.rejected == (if answer is Conflicting {
                attempt.found.rejected.insert(attempt.asked[at as int])
            } else {
                attempt.found.rejected
            })
            &&& if at + 1 < attempt.asked.len() {
                after.stage == RecoveryStage::Asking((at + 1) as usize) && after.next() == (
                RecoveryActionModel::FindBundle {
                    provider: attempt.asked[at + 1],
                    key: bundle_key(attempt.subject, attempt.asked[at + 1]),
                })
            } else {
                after.next() is ReadKept
            }
        },
{
}

/// A state is searched for on the word of all that was found and kept. One that
/// was found is pinned, with the highest number under which those who stand
/// behind it have seen the node publish; two at one generation end the recovery,
/// and where none was confirmed or certified the attempt is repeated later.
pub proof fn what_a_search_finds_is_pinned(
    attempt: AttemptModel,
    records: Seq<KeptCandidateModel>,
    event: CheckEventModel,
)
    requires
        attempt.wf(),
    ensures
        attempt.next() is ReadKept ==> {
            let after = attempt.after(RecoveryEventModel::Kept(records));
            &&& after.found == attempt.found.with_all_kept(records)
            &&& after.search is Some ==> after.search == Some(search_begun(after.found.words))
            &&& search_begun(after.found.words).stage is NothingConfirmed ==> after.next()
                == RecoveryActionModel::Pending(RecoveryPending::NothingConfirmed)
        },
        attempt.stage is Searching ==> {
            let search = attempt.search->0.after(event);
            let after = attempt.after(RecoveryEventModel::Check(event));
            &&& after.found == attempt.found
            &&& match search.stage {
                SearchStage::Found => {
                    let state = search.chosen->0;
                    &&& after.chosen == search.chosen
                    &&& after.next() matches RecoveryActionModel::Pin {
                        head,
                        words,
                        endpoint_floor,
                    } && {
                        &&& head == state.head
                        &&& words == state.words
                        &&& endpoint_floor == floor_upto(
                            state.words.map_values(
                                |word: usize| attempt.found.details[word as int].endpoint_floor,
                            ),
                        )
                    }
                },
                SearchStage::Ambiguous(generation) => after.next() == RecoveryActionModel::Failed(
                    RecoveryFailure::Ambiguous(generation),
                ),
                SearchStage::NothingConfirmed => after.next() == RecoveryActionModel::Pending(
                    RecoveryPending::NothingConfirmed,
                ),
                SearchStage::NothingCertified => after.next() == RecoveryActionModel::Pending(
                    RecoveryPending::NothingCertified,
                ),
                SearchStage::Checking(_, _) => after.search == Some(search) && (search.next()
                    matches SearchAction::Check { head, action } && after.next() == (
                RecoveryActionModel::Check { head, action })),
            }
        },
{
}

/// Of what the node has kept itself, in order, a record counts that can be
/// opened, whose provider has not contradicted itself, and whose publisher has
/// not spoken. What was said before stays.
pub proof fn kept_words_are_added_behind(found: FoundModel, records: Seq<KeptCandidateModel>)
    ensures
        ({
            let after = found.with_all_kept(records);
            &&& after.rejected == found.rejected
            &&& found.words.is_prefix_of(after.words)
            &&& found.details.is_prefix_of(after.details)
            &&& after.words.len() - found.words.len() == after.details.len() - found.details.len()
            &&& forall|i: int|
                found.words.len() <= i < after.words.len() ==> exists|k: int|
                    0 <= k < records.len() && !found.rejected.contains(
                        (#[trigger] records[k]).provider,
                    ) && !has_spoken(found.words, records[k].publisher) && (records[k].found
                        matches Some((word, _)) && word == #[trigger] after.words[i])
        }),
    decreases records.len(),
{
    if records.len() == 0 {
        assert(found.words =~= found.words.subrange(0, found.words.len() as int));
        assert(found.details =~= found.details.subrange(0, found.details.len() as int));
    } else {
        let fewer = records.drop_last();
        kept_words_are_added_behind(found, fewer);
        let before = found.with_all_kept(fewer);
        let after = found.with_all_kept(records);
        let record = records.last();
        assert(found.words =~= after.words.subrange(0, found.words.len() as int)) by {
            assert forall|i: int| 0 <= i < found.words.len() implies found.words[i]
                == after.words[i] by {
                assert(before.words.subrange(0, found.words.len() as int)[i] == before.words[i]);
            }
        }
        assert(found.details =~= after.details.subrange(0, found.details.len() as int)) by {
            assert forall|i: int| 0 <= i < found.details.len() implies found.details[i]
                == after.details[i] by {
                assert(before.details.subrange(0, found.details.len() as int)[i]
                    == before.details[i]);
            }
        }
        assert forall|i: int| found.words.len() <= i < after.words.len() implies exists|k: int|
            0 <= k < records.len() && !found.rejected.contains((#[trigger] records[k]).provider)
                && !has_spoken(found.words, records[k].publisher) && (records[k].found matches Some(
                (word, _),
            ) && word == #[trigger] after.words[i]) by {
            if i < before.words.len() {
                assert(after.words[i] == before.words[i]);
                let k = choose|k: int|
                    0 <= k < fewer.len() && !found.rejected.contains(
                        (#[trigger] fewer[k]).provider,
                    ) && !has_spoken(found.words, fewer[k].publisher) && (fewer[k].found
                        matches Some((word, _)) && word == #[trigger] before.words[i]);
                assert(records[k] == fewer[k]);
            } else {
                if has_spoken(found.words, record.publisher) {
                    let m = choose|m: int|
                        0 <= m < found.words.len() && (#[trigger] found.words[m]).publisher
                            == record.publisher;
                    assert(before.words.subrange(0, found.words.len() as int)[m]
                        == before.words[m]);
                    assert(has_spoken(before.words, record.publisher));
                }
                assert(records[records.len() - 1] == record);
            }
        }
    }
}

/// Once a state is pinned, the node learns where it can be reached itself, and
/// looks every other member up, in order; a member whose key is none fails the
/// recovery. Then the endpoints that are to be learned are learned, in order, the
/// guild is taken over, its shards are recovered, the state is installed, and the
/// latest revision of the node, if it has one, is restored.
pub proof fn a_pinned_state_is_recovered_step_by_step(
    attempt: AttemptModel,
    endpoints: Seq<Seq<char>>,
    set: Option<(Seq<Seq<char>>, u64)>,
    learned: bool,
)
    requires
        attempt.wf(),
        attempt.learned.len() <= usize::MAX,
        attempt.roster.len() <= usize::MAX,
    ensures
        attempt.next() is Pin ==> attempt.after(RecoveryEventModel::Pinned).next()
            is ReadLocalEndpoints,
        attempt.next() is ReadLocalEndpoints ==> {
            let after = attempt.after(RecoveryEventModel::LocalEndpoints(endpoints));
            let others = other_members(attempt.chosen->0.members, attempt.subject);
            &&& after.local_endpoints == endpoints
            &&& !(forall|i: int|
                0 <= i < others.len() ==> peer_of_key((#[trigger] others[i])@) is Some)
                ==> after.next() == RecoveryActionModel::Failed(RecoveryFailure::NoIdentity)
            &&& (forall|i: int|
                0 <= i < others.len() ==> peer_of_key((#[trigger] others[i])@) is Some)
                && others.len() > 0 ==> after.next() == (RecoveryActionModel::FindEndpoints {
                member: others[0],
                key: endpoint_key(peer_text(peer_of_key(others[0]@)->0)),
            })
        },
        attempt.stage is Lookup ==> {
            let after = attempt.after(RecoveryEventModel::Endpoints(set));
            let k = attempt.current.len() as int;
            &&& after.current == attempt.current.push(set)
            &&& attempt.next() == (RecoveryActionModel::FindEndpoints {
                member: attempt.members[k],
                key: endpoint_key(peer_text(peer_of_key(attempt.members[k]@)->0)),
            })
            &&& k + 1 < attempt.members.len() ==> after.next() == (
            RecoveryActionModel::FindEndpoints {
                member: attempt.members[k + 1],
                key: endpoint_key(peer_text(peer_of_key(attempt.members[k + 1]@)->0)),
            })
            &&& k + 1 == attempt.members.len() ==> after.next() is Learn || after.next() is Adopt
        },
        attempt.stage matches RecoveryStage::Learning(at) ==> {
            let place = attempt.learned[at as int] as int;
            let after = attempt.after(RecoveryEventModel::Learned(learned));
            &&& attempt.next() == (RecoveryActionModel::Learn {
                place: attempt.learned[at as int],
                expires_at_unix_seconds: attempt.roster[place].expires_at_unix_seconds->0,
            })
            &&& after.roster.len() == attempt.roster.len()
            &&& forall|i: int|
                0 <= i < attempt.roster.len() ==> #[trigger] after.roster[i] == (if i == place
                    && !learned {
                    RosterModel { endpoints: Seq::empty(), ..attempt.roster[i] }
                } else {
                    attempt.roster[i]
                })
            &&& if at + 1 < attempt.learned.len() {
                after.next() matches RecoveryActionModel::Learn { place, .. } && place
                    == attempt.learned[at + 1]
            } else {
                after.next() is Adopt
            }
        },
        attempt.next() is Adopt ==> attempt.after(RecoveryEventModel::Adopted).next()
            is RecoverShards,
        attempt.next() is RecoverShards ==> attempt.after(RecoveryEventModel::Recovered).next()
            is Install,
        attempt.next() is Install ==> {
            let after = attempt.after(RecoveryEventModel::Installed);
            let head = attempt.chosen->0.head;
            match latest_place(attempt.chosen->0.revisions, attempt.subject) {
                Some(revision) => after.next() == (RecoveryActionModel::Restore {
                    revision: revision as usize,
                }),
                None => after.next() == RecoveryActionModel::Done(
                    DhtRecoveryResult {
                        guild_id: head.guild_id,
                        checkpoint_hash: head.checkpoint_hash,
                        generation: head.generation,
                        revision_id: None,
                    },
                ),
            }
        },
        attempt.stage matches RecoveryStage::Restore(revision) ==> {
            let head = attempt.chosen->0.head;
            &&& attempt.next() == (RecoveryActionModel::Restore { revision })
            &&& attempt.after(RecoveryEventModel::Restored).next() == RecoveryActionModel::Done(
                DhtRecoveryResult {
                    guild_id: head.guild_id,
                    checkpoint_hash: head.checkpoint_hash,
                    generation: head.generation,
                    revision_id: Some(
                        attempt.chosen->0.revisions[revision as int].revision_id,
                    ),
                },
            )
        },
{
}

/// The places that are learned are just those of the members whose endpoints are
/// good until some time, in order.
pub proof fn everyone_with_endpoints_is_learned(roster: Seq<RosterModel>)
    requires
        roster.len() <= usize::MAX,
    ensures
        forall|i: int|
            0 <= i < learned_places(roster).len() ==> #[trigger] learned_places(roster)[i]
                < roster.len(),
        forall|i: int, j: int|
            0 <= i < j < learned_places(roster).len() ==> #[trigger] learned_places(roster)[i]
                < #[trigger] learned_places(roster)[j],
        forall|place: int|
            0 <= place < roster.len() ==> ((#[trigger] roster[place]).expires_at_unix_seconds is Some
                <==> learned_places(roster).contains(place as usize)),
    decreases roster.len(),
{
    if roster.len() > 0 {
        let fewer = roster.drop_last();
        everyone_with_endpoints_is_learned(fewer);
        let before = learned_places(fewer);
        let after = learned_places(roster);
        assert forall|i: int| 0 <= i < after.len() implies #[trigger] after[i] < roster.len() by {
            if i < before.len() {
                assert(after[i] == before[i]);
            }
        }
        assert forall|i: int, j: int| 0 <= i < j < after.len() implies #[trigger] after[i]
            < #[trigger] after[j] by {
            assert(after[i] == before[i]);
            if j < before.len() {
                assert(after[j] == before[j]);
            }
        }
        assert forall|place: int| 0 <= place < roster.len() implies ((
        #[trigger] roster[place]).expires_at_unix_seconds is Some <==> after.contains(
            place as usize,
        )) by {
            if place < fewer.len() {
                assert(fewer[place] == roster[place]);
                if before.contains(place as usize) {
                    let k = choose|k: int| 0 <= k < before.len() && before[k] == place as usize;
                    assert(after[k] == place as usize);
                }
                if after.contains(place as usize) {
                    let k = choose|k: int| 0 <= k < after.len() && after[k] == place as usize;
                    assert(k < before.len());
                    assert(before[k] == place as usize);
                }
            } else {
                if roster[place].expires_at_unix_seconds is Some {
                    assert(after[before.len() as int] == place as usize);
                } else if after.contains(place as usize) {
                    let k = choose|k: int| 0 <= k < after.len() && after[k] == place as usize;
                    assert(before[k] < fewer.len());
                }
            }
        }
    }
}

/// The roster names every member of the state, in its order: the node itself with
/// where it can be reached now; another member with the endpoints of its current
/// record, else with those that its recovery record names, if it is one of those
/// who stand behind the state, else with none.
pub proof fn the_roster_names_every_member(attempt: AttemptModel, place: int)
    requires
        attempt.chosen is Some,
        0 <= place < attempt.chosen->0.members.len(),
    ensures
        ({
            let state = attempt.chosen->0;
            let roster = attempt.planned_roster();
            let member = state.members[place];
            let entry = roster[place];
            let others = other_members(state.members, attempt.subject);
            &&& roster.len() == state.members.len()
            &&& entry.node == member
            &&& member == attempt.subject ==> entry.endpoints == attempt.local_endpoints
                && entry.expires_at_unix_seconds is None
            &&& member != attempt.subject ==> ({
                let at = first_place(others, member);
                let current = if at is Some && at->0 < attempt.current.len() {
                    attempt.current[at->0]
                } else {
                    None
                };
                &&& current matches Some((endpoints, expires)) ==> entry.endpoints == spelled(
                    endpoints,
                ) && entry.expires_at_unix_seconds == Some(expires)
                &&& current is None && !(exists|i: int|
                    0 <= i < state.words.len()
                        && attempt.found.words[#[trigger] state.words[i] as int].publisher
                        == member) ==> entry.endpoints.len() == 0
                    && entry.expires_at_unix_seconds is None
                &&& current is None && entry.expires_at_unix_seconds is Some ==> exists|i: int|
                    0 <= i < state.words.len()
                        && attempt.found.words[#[trigger] state.words[i] as int].publisher == member
                        && entry.endpoints == spelled(
                        attempt.found.details[state.words[i] as int].endpoints,
                    ) && entry.expires_at_unix_seconds == Some(
                        attempt.found.details[state.words[i] as int].expires_at_unix_seconds,
                    )
                &&& current is None && (exists|i: int|
                    0 <= i < state.words.len()
                        && attempt.found.words[#[trigger] state.words[i] as int].publisher
                        == member) ==> entry.expires_at_unix_seconds is Some
            })
        }),
{
    let state = attempt.chosen->0;
    lemma_word_by(state.words, attempt.found.words, state.members[place]);
}

proof fn lemma_word_by(chosen: Seq<usize>, words: Seq<RecoveryCandidate>, member: Id32)
    ensures
        match word_by(chosen, words, member) {
            Some(word) => words[word as int].publisher == member && exists|i: int|
                0 <= i < chosen.len() && #[trigger] chosen[i] == word,
            None => forall|i: int|
                0 <= i < chosen.len() ==> words[#[trigger] chosen[i] as int].publisher != member,
        },
    decreases chosen.len(),
{
    if chosen.len() > 0 {
        let fewer = chosen.drop_last();
        lemma_word_by(fewer, words, member);
        match word_by(fewer, words, member) {
            Some(word) => {
                let i = choose|i: int| 0 <= i < fewer.len() && #[trigger] fewer[i] == word;
                assert(chosen[i] == word);
            },
            None => {
                if words[chosen.last() as int].publisher == member {
                    assert(chosen[chosen.len() - 1] == chosen.last());
                } else {
                    assert forall|i: int| 0 <= i < chosen.len() implies
                        words[#[trigger] chosen[i] as int].publisher != member by {
                        if i < fewer.len() {
                            assert(fewer[i] == chosen[i]);
                        }
                    }
                }
            },
        }
    }
}

/// What fails, and what was not asked for, ends an attempt; only where those who
/// keep records could not be asked for is it repeated.
pub proof fn an_attempt_takes_only_what_it_asked_for(
    attempt: AttemptModel,
    event: RecoveryEventModel,
)
    requires
        attempt.wf(),
    ensures
        attempt.undecided() || attempt.certain() ==> (event is Failed && !(attempt.next()
            is FindProviders) && !(attempt.next() is Done) ==> attempt.after(event).next()
            == RecoveryActionModel::Failed(RecoveryFailure::Outside)),
        !(event is Failed) && (match attempt.next() {
            RecoveryActionModel::FindProviders { .. } => !(event is Providers),
            RecoveryActionModel::FindBundle { .. } => !(event is Answer),
            RecoveryActionModel::ReadKept => !(event is Kept),
            RecoveryActionModel::Check { .. } => !(event is Check),
            RecoveryActionModel::Pin { .. } => !(event is Pinned),
            RecoveryActionModel::ReadLocalEndpoints => !(event is LocalEndpoints),
            RecoveryActionModel::FindEndpoints { .. } => !(event is Endpoints),
            RecoveryActionModel::Learn { .. } => !(event is Learned),
            RecoveryActionModel::Adopt => !(event is Adopted),
            RecoveryActionModel::RecoverShards => !(event is Recovered),
            RecoveryActionModel::Install => !(event is Installed),
            RecoveryActionModel::Restore { .. } => !(event is Restored),
            _ => false,
        }) ==> attempt.after(event).next() == RecoveryActionModel::Failed(
            RecoveryFailure::OutOfOrder,
        ),
{
}

} // verus!
