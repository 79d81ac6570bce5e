//! Committing a backup job: what the coordinator of a guild does, in order,
//! until a new state is certified and every member has taken it over.

use crate::address::{address_of_text, Component, Multiaddr};
use crate::coding::{
    uncoded, CodedRevision, CodingAction, CodingActionModel, CodingEvent, CodingModel, CodingRules,
    CodingStage, SectorCoding,
};
use crate::commit::{
    already_committed, check_backup_job, check_prepared_revision, everyone_has_a_place,
    first_place, holds_revision, led_by, next_generation, next_revisions, order_backup_peers,
    order_by_id, places_but, push_copies, revision_of_job, BackupJob, CommitError, MemberPlace,
    PreparedRevision, SectorRef, BACKUP_PEERS,
};
use crate::endpoints::texts;
use crate::ids::{sorted_by_key, Id32};
use crate::recovery::RevisionFacts;
use vstd::prelude::*;

verus! {

/// The certificate of a guild, as far as it is checked.
#[derive(Clone, Copy, Debug)]
pub struct GuildCertificate {
    /// Its signatures are those of its members.
    pub valid: bool,
    pub guild_id: Id32,
    pub coordinator: Id32,
}

/// A member of a guild and its endpoints.
#[derive(Debug)]
pub struct GuildPeer {
    pub node: Id32,
    pub endpoints: Vec<String>,
}

/// The members of a guild.
pub open spec fn nodes_of(peers: Seq<GuildPeer>) -> Seq<Id32> {
    peers.map_values(|peer: GuildPeer| peer.node)
}

/// The endpoints of the members of a guild.
pub open spec fn endpoints_of(peers: Seq<GuildPeer>) -> Seq<Seq<Seq<char>>> {
    peers.map_values(|peer: GuildPeer| texts(peer.endpoints@))
}

/// The last state of a guild.
#[derive(Debug)]
pub struct PreviousState {
    /// Its signatures are those of its members.
    pub valid: bool,
    pub generation: u64,
    pub hash: Id32,
    pub revisions: Vec<RevisionFacts>,
    pub groups: Vec<Id32>,
}

/// The last state of a guild, for contracts.
pub struct PreviousModel {
    pub valid: bool,
    pub generation: u64,
    pub hash: Id32,
    pub revisions: Seq<RevisionFacts>,
    pub groups: Seq<Id32>,
}

impl PreviousState {
    pub open spec fn view(&self) -> PreviousModel {
        PreviousModel {
            valid: self.valid,
            generation: self.generation,
            hash: self.hash,
            revisions: self.revisions@,
            groups: self.groups@,
        }
    }
}

/// The view of a last state, if there is one.
pub open spec fn previous_view(previous: Option<PreviousState>) -> Option<PreviousModel> {
    match previous {
        Some(previous) => Some(previous@),
        None => None,
    }
}

/// The bounds of a catalog.
#[derive(Clone, Copy, Debug)]
pub struct CodingLimits {
    pub max_coding_groups: u32,
    pub sector_size: usize,
}

/// An endpoint of a peer.
#[derive(Debug)]
pub struct PeerEndpoint {
    pub peer: Id32,
    pub endpoint: String,
}

impl PeerEndpoint {
    pub open spec fn view(&self) -> (Id32, Seq<char>) {
        (self.peer, self.endpoint@)
    }
}

/// The endpoints of peers, for contracts.
pub open spec fn endpoint_views(list: Seq<PeerEndpoint>) -> Seq<(Id32, Seq<char>)> {
    list.map_values(|entry: PeerEndpoint| entry@)
}

/// The endpoints of one peer.
pub open spec fn tagged(peer: Id32, endpoints: Seq<Seq<char>>) -> Seq<(Id32, Seq<char>)> {
    endpoints.map_values(|endpoint: Seq<char>| (peer, endpoint))
}

/// The endpoints of all peers but the node itself, peer by peer.
pub open spec fn dialed(
    order: Seq<MemberPlace>,
    endpoints: Seq<Seq<Seq<char>>>,
    local: Id32,
) -> Seq<(Id32, Seq<char>)>
    decreases order.len(),
{
    if order.len() == 0 {
        Seq::empty()
    } else {
        let before = dialed(order.drop_last(), endpoints, local);
        let last = order.last();
        if last.node == local {
            before
        } else {
            before + tagged(last.node, endpoints[last.place as int])
        }
    }
}

/// The peers but the node itself.
pub open spec fn remotes_of(order: Seq<MemberPlace>, local: Id32) -> Seq<Id32>
    decreases order.len(),
{
    if order.len() == 0 {
        Seq::empty()
    } else {
        let before = remotes_of(order.drop_last(), local);
        if order.last().node == local {
            before
        } else {
            before.push(order.last().node)
        }
    }
}

fn push_endpoints(list: &mut Vec<PeerEndpoint>, peer: Id32, endpoints: &Vec<String>)
    ensures
        endpoint_views(final(list)@) == endpoint_views(old(list)@) + tagged(
            peer,
            texts(endpoints@),
        ),
{
    let ghost all = tagged(peer, texts(endpoints@));
    let ghost start = endpoint_views(list@);
    let mut i: usize = 0;
    assert(start =~= start + all.take(0));
    while i < endpoints.len()
        invariant
            i <= endpoints@.len(),
            all == tagged(peer, texts(endpoints@)),
            endpoint_views(list@) == start + all.take(i as int),
        decreases endpoints@.len() - i,
    {
        let ghost before = endpoint_views(list@);
        let entry = PeerEndpoint { peer, endpoint: endpoints[i].clone() };
        let ghost view = entry@;
        list.push(entry);
        proof {
            assert(endpoint_views(list@) =~= before.push(view));
            assert(all[i as int] == view);
            assert(start + all.take(i + 1) =~= before.push(view));
        }
        i += 1;
    }
    assert(all.take(i as int) =~= all);
}

fn endpoints_to_dial(order: &Vec<MemberPlace>, peers: &Vec<GuildPeer>, local: &Id32) -> (list: Vec<
    PeerEndpoint,
>)
    requires
        forall|i: int| 0 <= i < order@.len() ==> (#[trigger] order@[i]).place < peers@.len(),
    ensures
        endpoint_views(list@) == dialed(order@, endpoints_of(peers@), *local),
{
    let mut list: Vec<PeerEndpoint> = Vec::new();
    let mut i: usize = 0;
    assert(order@.take(0) =~= Seq::empty());
    assert(endpoint_views(list@) =~= Seq::empty());
    while i < order.len()
        invariant
            i <= order@.len(),
            forall|i: int| 0 <= i < order@.len() ==> (#[trigger] order@[i]).place < peers@.len(),
            endpoint_views(list@) == dialed(
                order@.take(i as int),
                endpoints_of(peers@),
                *local,
            ),
        decreases order@.len() - i,
    {
        assert(order@.take(i + 1).drop_last() =~= order@.take(i as int));
        if !order[i].node.equals(local) {
            push_endpoints(&mut list, order[i].node, &peers[order[i].place].endpoints);
        }
        i += 1;
    }
    assert(order@.take(i as int) =~= order@);
    list
}

fn peers_but(order: &Vec<MemberPlace>, local: &Id32) -> (remotes: Vec<Id32>)
    ensures
        remotes@ == remotes_of(order@, *local),
{
    let mut remotes: Vec<Id32> = Vec::new();
    let mut i: usize = 0;
    assert(order@.take(0) =~= Seq::empty());
    while i < order.len()
        invariant
            i <= order@.len(),
            remotes@ == remotes_of(order@.take(i as int), *local),
        decreases order@.len() - i,
    {
        assert(order@.take(i + 1).drop_last() =~= order@.take(i as int));
        if !order[i].node.equals(local) {
            remotes.push(order[i].node);
        }
        i += 1;
    }
    assert(order@.take(i as int) =~= order@);
    remotes
}

/// The identities of coded groups.
pub open spec fn group_ids(coding: CodingModel) -> Seq<Id32> {
    coding.groups.map_values(|group: crate::coding::CodedGroup| group.id)
}

/// How far a job has come.
#[derive(Clone, Copy, Debug)]
pub enum CommitStage {
    /// Addresses are added, up to this one; then the revision is fetched.
    Addresses(usize),
    Coding,
    Build,
    Body(Id32),
    Signing(Id32),
    Assemble(Id32),
    Certificate(Id32),
    /// Members take the state over, up to this one; then the node itself does.
    Finalizing(Id32, usize),
    Done(Id32),
    Failed(CommitError),
}

/// By what a state is known: its guild, and the hash of its body.
#[derive(Clone, Copy, Debug, PartialEq, Eq)]
pub struct StateKey {
    pub guild_id: Id32,
    pub hash: Id32,
}

/// What a job needs next.
#[derive(Debug)]
pub enum CommitAction {
    AddAddress { peer: Id32, address: Multiaddr },
    /// Fetch the revision of the job from its owner.
    FetchRevision(BackupJob),
    Code(CodingAction),
    /// Build the next state of the guild. The groups are given by their places among those
    /// of the last state and the new ones behind them.
    Build {
        guild_id: Id32,
        generation: u64,
        parent: Option<Id32>,
        revisions: Vec<RevisionFacts>,
        groups: Vec<MemberPlace>,
    },
    PublishBody(StateKey),
    /// Have a member sign the state.
    Sign { signer: Id32, local: bool, state: StateKey },
    /// Put the signatures together, in this order.
    Assemble { signatures: Vec<MemberPlace> },
    PublishCertificate(StateKey),
    Finalize { peer: Id32, state: StateKey },
    FinalizeLocal(StateKey),
    Done(Id32),
    Failed(CommitError),
}

/// What a job needs next, as a plain value.
pub enum CommitActionModel {
    AddAddress { peer: Id32, address: Seq<Component> },
    FetchRevision(BackupJob),
    Code(CodingActionModel),
    Build {
        guild_id: Id32,
        generation: u64,
        parent: Option<Id32>,
        revisions: Seq<RevisionFacts>,
        groups: Seq<MemberPlace>,
    },
    PublishBody(StateKey),
    Sign { signer: Id32, local: bool, state: StateKey },
    Assemble { signatures: Seq<MemberPlace> },
    PublishCertificate(StateKey),
    Finalize { peer: Id32, state: StateKey },
    FinalizeLocal(StateKey),
    Done(Id32),
    Failed(CommitError),
}

impl CommitAction {
    pub open spec fn view(&self) -> CommitActionModel {
        match *self {
            CommitAction::AddAddress { peer, address } => CommitActionModel::AddAddress {
                peer,
                address: address@,
            },
            CommitAction::FetchRevision(job) => CommitActionModel::FetchRevision(job),
            CommitAction::Code(action) => CommitActionModel::Code(action@),
            CommitAction::Build { guild_id, generation, parent, revisions, groups } =>
                CommitActionModel::Build {
                guild_id,
                generation,
                parent,
                revisions: revisions@,
                groups: groups@,
            },
            CommitAction::PublishBody(state) => CommitActionModel::PublishBody(state),
            CommitAction::Sign { signer, local, state } => CommitActionModel::Sign {
                signer,
                local,
                state,
            },
            CommitAction::Assemble { signatures } => CommitActionModel::Assemble {
                signatures: signatures@,
            },
            CommitAction::PublishCertificate(state) => CommitActionModel::PublishCertificate(
                state,
            ),
            CommitAction::Finalize { peer, state } => CommitActionModel::Finalize { peer, state },
            CommitAction::FinalizeLocal(state) => CommitActionModel::FinalizeLocal(state),
            CommitAction::Done(hash) => CommitActionModel::Done(hash),
            CommitAction::Failed(error) => CommitActionModel::Failed(error),
        }
    }
}

/// What came of an action.
#[derive(Debug)]
pub enum CommitEvent {
    Added,
    /// The revision that its owner prepared, with its number and its sectors.
    Revision { revision: PreparedRevision, sequence: u64, sectors: Vec<SectorRef> },
    Coding(CodingEvent),
    /// The next state was built and is in order.
    Built(Id32),
    Published,
    /// A signature came; by whom it is.
    Signed(Id32),
    /// The signatures certify the state.
    Assembled,
    Finalized,
    Failed,
}

/// What came of an action, as a plain value.
pub enum CommitEventModel {
    Added,
    Revision { revision: PreparedRevision, sequence: u64, sectors: Seq<SectorRef> },
    Coding(CodingEvent),
    Built(Id32),
    Published,
    Signed(Id32),
    Assembled,
    Finalized,
    Failed,
}

impl CommitEvent {
    pub open spec fn view(&self) -> CommitEventModel {
        match *self {
            CommitEvent::Added => CommitEventModel::Added,
            CommitEvent::Revision { revision, sequence, sectors } => CommitEventModel::Revision {
                revision,
                sequence,
                sectors: sectors@,
            },
            CommitEvent::Coding(event) => CommitEventModel::Coding(event),
            CommitEvent::Built(hash) => CommitEventModel::Built(hash),
            CommitEvent::Published => CommitEventModel::Published,
            CommitEvent::Signed(signer) => CommitEventModel::Signed(signer),
            CommitEvent::Assembled => CommitEventModel::Assembled,
            CommitEvent::Finalized => CommitEventModel::Finalized,
            CommitEvent::Failed => CommitEventModel::Failed,
        }
    }
}

/// A backup job that is being committed.
#[derive(Debug)]
pub struct JobCommit {
    job: BackupJob,
    local: Id32,
    limits: CodingLimits,
    peers: Vec<MemberPlace>,
    remotes: Vec<Id32>,
    endpoints: Vec<PeerEndpoint>,
    previous: Option<PreviousState>,
    revision: Option<RevisionFacts>,
    coding: Option<SectorCoding>,
    signers: Vec<Id32>,
    stage: CommitStage,
}

/// A backup job that is being committed, for contracts.
#[verifier::ext_equal]
pub struct CommitModel {
    pub job: BackupJob,
    pub local: Id32,
    pub limits: CodingLimits,
    /// The owner first, the others by identity.
    pub peers: Seq<MemberPlace>,
    /// The peers but the node itself.
    pub remotes: Seq<Id32>,
    pub endpoints: Seq<(Id32, Seq<char>)>,
    pub previous: Option<PreviousModel>,
    pub revision: Option<RevisionFacts>,
    pub coding: Option<CodingModel>,
    pub signers: Seq<Id32>,
    pub stage: CommitStage,
}

/// Why no state can follow a last state, if none can.
pub open spec fn succession_problem(previous: Option<PreviousModel>) -> Option<CommitError> {
    match previous {
        Some(previous) => if !previous.valid {
            Some(CommitError::InvalidPrevious)
        } else if previous.generation == u64::MAX {
            Some(CommitError::GenerationExhausted)
        } else {
            None
        },
        None => None,
    }
}

/// The generation of the state after a last state.
pub open spec fn generation_after(previous: Option<PreviousModel>) -> u64 {
    match previous {
        Some(previous) => (previous.generation + 1) as u64,
        None => 1,
    }
}

/// The revisions of a last state.
pub open spec fn revisions_before(previous: Option<PreviousModel>) -> Seq<RevisionFacts> {
    match previous {
        Some(previous) => previous.revisions,
        None => Seq::empty(),
    }
}

/// The groups of a last state.
pub open spec fn groups_before(previous: Option<PreviousModel>) -> Seq<Id32> {
    match previous {
        Some(previous) => previous.groups,
        None => Seq::empty(),
    }
}

/// The hash of a last state.
pub open spec fn parent_of(previous: Option<PreviousModel>) -> Option<Id32> {
    match previous {
        Some(previous) => Some(previous.hash),
        None => None,
    }
}

impl CommitModel {
    /// The revision is coded once the state is built, and all five members
    /// have signed before the signatures are put together.
    pub open spec fn wf(self) -> bool {
        let built = !(self.stage is Addresses || self.stage is Failed);
        &&& self.peers.len() == BACKUP_PEERS
        &&& self.peers[0].node == self.job.owner
        &&& self.remotes == remotes_of(self.peers, self.local)
        &&& self.signers.len() <= BACKUP_PEERS
        &&& (self.coding matches Some(coding) ==> coding.wf())
        &&& (built ==> self.coding is Some && self.revision is Some)
        &&& (built && !(self.stage is Coding) ==> self.coding->0.done() && succession_problem(
            self.previous,
        ) is None)
        &&& (self.stage is Signing ==> self.signers.len() < BACKUP_PEERS)
        &&& (self.certifying() ==> self.signers.len() == BACKUP_PEERS)
        &&& (self.stage matches CommitStage::Addresses(at) ==> at <= self.endpoints.len())
        &&& (self.stage matches CommitStage::Finalizing(_, at) ==> at <= self.remotes.len())
    }

    /// Every member has signed.
    pub open spec fn certifying(self) -> bool {
        self.stage is Assemble || self.stage is Certificate || self.stage is Finalizing
            || self.stage is Done
    }

    /// What is needed next.
    pub open spec fn next(self) -> CommitActionModel {
        match self.stage {
            CommitStage::Addresses(at) => if at < self.endpoints.len() {
                let (peer, endpoint) = self.endpoints[at as int];
                match address_of_text(endpoint) {
                    Some(address) => CommitActionModel::AddAddress { peer, address },
                    None => CommitActionModel::Failed(CommitError::InvalidEndpoint),
                }
            } else {
                CommitActionModel::FetchRevision(self.job)
            },
            CommitStage::Coding => CommitActionModel::Code(self.coding->0.next()),
            CommitStage::Build => CommitActionModel::Build {
                guild_id: self.job.guild_id,
                generation: generation_after(self.previous),
                parent: parent_of(self.previous),
                revisions: sorted_by_key(
                    revisions_before(self.previous).push(self.revision->0),
                ),
                groups: sorted_by_key(
                    places_but(groups_before(self.previous) + group_ids(self.coding->0), -1),
                ),
            },
            CommitStage::Body(hash) => CommitActionModel::PublishBody(self.state_key(hash)),
            CommitStage::Signing(hash) => {
                let signer = self.peers[self.signers.len() as int].node;
                CommitActionModel::Sign {
                    signer,
                    local: signer == self.local,
                    state: self.state_key(hash),
                }
            },
            CommitStage::Assemble(_) => CommitActionModel::Assemble {
                signatures: sorted_by_key(places_but(self.signers, -1)),
            },
            CommitStage::Certificate(hash) => CommitActionModel::PublishCertificate(
                self.state_key(hash),
            ),
            CommitStage::Finalizing(hash, at) => if at < self.remotes.len() {
                CommitActionModel::Finalize {
                    peer: self.remotes[at as int],
                    state: self.state_key(hash),
                }
            } else {
                CommitActionModel::FinalizeLocal(self.state_key(hash))
            },
            CommitStage::Done(hash) => CommitActionModel::Done(hash),
            CommitStage::Failed(error) => CommitActionModel::Failed(error),
        }
    }

    /// By what the state is known that the job makes.
    pub open spec fn state_key(self, hash: Id32) -> StateKey {
        StateKey { guild_id: self.job.guild_id, hash }
    }

    /// The job has failed.
    pub open spec fn failed(self, error: CommitError) -> CommitModel {
        CommitModel { stage: CommitStage::Failed(error), ..self }
    }

    /// How what the members hand over is checked.
    pub open spec fn rules(self) -> CodingRules {
        CodingRules::Guild { sector_size: self.limits.sector_size }
    }

    /// Why a revision is not coded, if it is not.
    pub open spec fn revision_problem(self, revision: PreparedRevision, sectors: Seq<SectorRef>) -> Option<
        CommitError,
    > {
        if !revision_of_job(revision, self.job) {
            Some(CommitError::WrongRevision)
        } else if sectors.len() == 0 || sectors.len() > self.limits.max_coding_groups {
            Some(CommitError::SectorCount)
        } else {
            None
        }
    }

    /// The job with the revision that its owner prepared.
    pub open spec fn with_revision(
        self,
        revision: PreparedRevision,
        sequence: u64,
        sectors: Seq<SectorRef>,
    ) -> CommitModel {
        match self.revision_problem(revision, sectors) {
            Some(error) => self.failed(error),
            None => CommitModel {
                revision: Some(
                    RevisionFacts {
                        owner: revision.owner,
                        sequence,
                        revision_id: revision.revision_id,
                    },
                ),
                coding: Some(
                    uncoded(
                        self.peers,
                        CodedRevision {
                            guild_id: self.job.guild_id,
                            revision_id: revision.revision_id,
                        },
                        sectors,
                        self.rules(),
                    ),
                ),
                stage: CommitStage::Coding,
                ..self
            },
        }
    }

    /// The job after an event of its coding.
    pub open spec fn coded(self, event: CodingEvent) -> CommitModel {
        let coding = self.coding->0.after(event);
        let stage = match coding.stage {
            CodingStage::Failed(error) => CommitStage::Failed(CommitError::Coding(error)),
            _ => if coding.done() {
                match succession_problem(self.previous) {
                    Some(error) => CommitStage::Failed(error),
                    None => CommitStage::Build,
                }
            } else {
                CommitStage::Coding
            },
        };
        CommitModel { coding: Some(coding), stage, ..self }
    }

    /// The job after a signature.
    pub open spec fn signed(self, hash: Id32, signer: Id32) -> CommitModel {
        let signers = self.signers.push(signer);
        let stage = if signers.len() == BACKUP_PEERS {
            CommitStage::Assemble(hash)
        } else {
            CommitStage::Signing(hash)
        };
        CommitModel { signers, stage, ..self }
    }

    /// The job after an event.
    pub open spec fn after(self, event: CommitEventModel) -> CommitModel {
        match (self.stage, event) {
            (CommitStage::Failed(_), _) => self,
            (CommitStage::Done(_), _) => self,
            (_, CommitEventModel::Failed) => self.failed(CommitError::Outside),
            (CommitStage::Addresses(at), CommitEventModel::Added) => if at
                >= self.endpoints.len() {
                self.failed(CommitError::OutOfOrder)
            } else if address_of_text(self.endpoints[at as int].1) is None {
                self.failed(CommitError::InvalidEndpoint)
            } else {
                CommitModel { stage: CommitStage::Addresses((at + 1) as usize), ..self }
            },
            (
                CommitStage::Addresses(at),
                CommitEventModel::Revision { revision, sequence, sectors },
            ) => if at < self.endpoints.len() {
                self.failed(CommitError::OutOfOrder)
            } else {
                self.with_revision(revision, sequence, sectors)
            },
            (CommitStage::Coding, CommitEventModel::Coding(event)) => self.coded(event),
            (CommitStage::Build, CommitEventModel::Built(hash)) => CommitModel {
                stage: CommitStage::Body(hash),
                ..self
            },
            (CommitStage::Body(hash), CommitEventModel::Published) => CommitModel {
                signers: Seq::empty(),
                stage: CommitStage::Signing(hash),
                ..self
            },
            (CommitStage::Signing(hash), CommitEventModel::Signed(signer)) => self.signed(
                hash,
                signer,
            ),
            (CommitStage::Assemble(hash), CommitEventModel::Assembled) => CommitModel {
                stage: CommitStage::Certificate(hash),
                ..self
            },
            (CommitStage::Certificate(hash), CommitEventModel::Published) => CommitModel {
                stage: CommitStage::Finalizing(hash, 0),
                ..self
            },
            (CommitStage::Finalizing(hash, at), CommitEventModel::Finalized) => if at
                < self.remotes.len() {
                CommitModel { stage: CommitStage::Finalizing(hash, (at + 1) as usize), ..self }
            } else {
                CommitModel { stage: CommitStage::Done(hash), ..self }
            },
            _ => self.failed(CommitError::OutOfOrder),
        }
    }
}

/// What a job comes to before anything is asked of others.
#[derive(Debug)]
pub enum CommitStart {
    /// The last state holds the revision already.
    Already(Id32),
    Started(JobCommit),
}

/// Why a job is not begun, if it is not and its revision is not held already.
pub open spec fn start_problem(members: Seq<Id32>, job: BackupJob) -> Option<CommitError> {
    if first_place(members, job.owner) is None {
        Some(CommitError::OwnerNotMember)
    } else if members.len() != BACKUP_PEERS {
        Some(CommitError::NotFivePeers)
    } else {
        None
    }
}

/// A job is for this coordinator of this certified guild.
pub open spec fn job_is_ours(
    certificate: GuildCertificate,
    local: Id32,
    members: Seq<Id32>,
    job: BackupJob,
) -> bool {
    &&& certificate.guild_id == job.guild_id
    &&& certificate.coordinator == local
    &&& job.owner == local ==> first_place(members, local) is Some
}

/// A job that has just begun.
pub open spec fn begun(
    local: Id32,
    peers: Seq<GuildPeer>,
    previous: Option<PreviousModel>,
    job: BackupJob,
    limits: CodingLimits,
) -> CommitModel {
    let order = led_by(nodes_of(peers), first_place(nodes_of(peers), job.owner)->0);
    CommitModel {
        job,
        local,
        limits,
        peers: order,
        remotes: remotes_of(order, local),
        endpoints: dialed(order, endpoints_of(peers), local),
        previous,
        revision: None,
        coding: None,
        signers: Seq::empty(),
        stage: CommitStage::Addresses(0),
    }
}

fn member_ids(peers: &Vec<GuildPeer>) -> (nodes: Vec<Id32>)
    ensures
        nodes@ == nodes_of(peers@),
{
    let mut nodes: Vec<Id32> = Vec::new();
    let mut i: usize = 0;
    while i < peers.len()
        invariant
            i <= peers@.len(),
            nodes@ == nodes_of(peers@).take(i as int),
        decreases peers@.len() - i,
    {
        nodes.push(peers[i].node);
        assert(nodes_of(peers@).take(i + 1) =~= nodes_of(peers@).take(i as int).push(
            peers@[i as int].node,
        ));
        i += 1;
    }
    assert(nodes_of(peers@).take(i as int) =~= nodes_of(peers@));
    nodes
}

/// Begins to commit a backup job: nothing is left to do where the last state
/// holds its revision already.
pub fn commit_backup_job(
    certificate: &GuildCertificate,
    local: Id32,
    peers: &Vec<GuildPeer>,
    previous: Option<PreviousState>,
    job: BackupJob,
    limits: CodingLimits,
) -> (start: Result<CommitStart, CommitError>)
    ensures
        ({
            let members = nodes_of(peers@);
            let last = previous_view(previous);
            let held = last is Some && holds_revision(last->0.revisions, job);
            if !certificate.valid {
                start matches Err(error) && error == CommitError::InvalidCertificate
            } else if !job_is_ours(*certificate, local, members, job) {
                start matches Err(error) && error == CommitError::WrongCoordinator
            } else if held {
                start matches Ok(CommitStart::Already(hash)) && hash == last->0.hash
            } else {
                match start_problem(members, job) {
                    Some(problem) => start matches Err(error) && error == problem,
                    None => start matches Ok(CommitStart::Started(commit)) && commit@ == begun(
                        local,
                        peers@,
                        last,
                        job,
                        limits,
                    ) && commit@.wf(),
                }
            }
        }),
{
    if !certificate.valid {
        return Err(CommitError::InvalidCertificate);
    }
    let nodes = member_ids(peers);
    match check_backup_job(
        &job,
        &certificate.guild_id,
        &certificate.coordinator,
        &local,
        &nodes,
    ) {
        Ok(()) => {},
        Err(error) => {
            return Err(error);
        },
    }
    if let Some(last) = &previous {
        if already_committed(&last.revisions, &job) {
            return Ok(CommitStart::Already(last.hash));
        }
    }
    let order = match order_backup_peers(&nodes, &job.owner) {
        Ok(order) => order,
        Err(error) => {
            return Err(error);
        },
    };
    proof {
        let place = first_place(nodes@, job.owner)->0;
        crate::commit::lemma_first_place_in_range(nodes@, job.owner);
        everyone_has_a_place(nodes@, place);
    }
    let endpoints = endpoints_to_dial(&order, peers, &local);
    let remotes = peers_but(&order, &local);
    Ok(
        CommitStart::Started(
            JobCommit {
                job,
                local,
                limits,
                peers: order,
                remotes,
                endpoints,
                previous,
                revision: None,
                coding: None,
                signers: Vec::new(),
                stage: CommitStage::Addresses(0),
            },
        ),
    )
}

impl JobCommit {
    pub closed spec fn view(&self) -> CommitModel {
        CommitModel {
            job: self.job,
            local: self.local,
            limits: self.limits,
            peers: self.peers@,
            remotes: self.remotes@,
            endpoints: endpoint_views(self.endpoints@),
            previous: previous_view(self.previous),
            revision: self.revision,
            coding: match self.coding {
                Some(coding) => Some(coding@),
                None => None,
            },
            signers: self.signers@,
            stage: self.stage,
        }
    }

    fn made(&self, hash: Id32) -> (state: StateKey)
        ensures
            state == self@.state_key(hash),
    {
        StateKey { guild_id: self.job.guild_id, hash }
    }

    fn build(&self) -> (action: CommitAction)
        requires
            self@.wf(),
            self@.stage is Build,
        ensures
            action@ == self@.next(),
    {
        let mut groups: Vec<Id32> = Vec::new();
        let mut revisions: Vec<RevisionFacts> = Vec::new();
        let mut parent: Option<Id32> = None;
        let mut generation: u64 = 1;
        if let Some(previous) = &self.previous {
            push_copies(&mut groups, &previous.groups);
            push_copies(&mut revisions, &previous.revisions);
            parent = Some(previous.hash);
            generation = match next_generation(Some(previous.generation)) {
                Ok(generation) => generation,
                Err(_) => 1,
            };
        }
        assert(groups@ =~= groups_before(self@.previous));
        assert(revisions@ =~= revisions_before(self@.previous));
        if let Some(coding) = &self.coding {
            push_group_ids(&mut groups, coding);
        }
        let groups = order_by_id(&groups);
        let revisions = match self.revision {
            Some(revision) => next_revisions(revisions, revision),
            None => revisions,
        };
        CommitAction::Build { guild_id: self.job.guild_id, generation, parent, revisions, groups }
    }

    /// What is needed next.
    pub fn next(&self) -> (action: CommitAction)
        requires
            self@.wf(),
        ensures
            action@ == self@.next(),
    {
        match self.stage {
            CommitStage::Addresses(at) => if at < self.endpoints.len() {
                let entry = &self.endpoints[at];
                assert(self@.endpoints[at as int] == entry@);
                match Multiaddr::parse(entry.endpoint.as_str()) {
                    Some(address) => CommitAction::AddAddress { peer: entry.peer, address },
                    None => CommitAction::Failed(CommitError::InvalidEndpoint),
                }
            } else {
                CommitAction::FetchRevision(self.job)
            },
            CommitStage::Coding => match &self.coding {
                Some(coding) => CommitAction::Code(coding.next()),
                None => CommitAction::Failed(CommitError::OutOfOrder),
            },
            CommitStage::Build => self.build(),
            CommitStage::Body(hash) => CommitAction::PublishBody(self.made(hash)),
            CommitStage::Signing(hash) => {
                let signer = self.peers[self.signers.len()].node;
                CommitAction::Sign {
                    signer,
                    local: signer.equals(&self.local),
                    state: self.made(hash),
                }
            },
            CommitStage::Assemble(_) => CommitAction::Assemble {
                signatures: order_by_id(&self.signers),
            },
            CommitStage::Certificate(hash) => CommitAction::PublishCertificate(self.made(hash)),
            CommitStage::Finalizing(hash, at) => if at < self.remotes.len() {
                CommitAction::Finalize { peer: self.remotes[at], state: self.made(hash) }
            } else {
                CommitAction::FinalizeLocal(self.made(hash))
            },
            CommitStage::Done(hash) => CommitAction::Done(hash),
            CommitStage::Failed(error) => CommitAction::Failed(error),
        }
    }

    fn fail(&mut self, error: CommitError)
        ensures
            final(self)@ == old(self)@.failed(error),
    {
        self.stage = CommitStage::Failed(error);
    }

    fn take_revision(&mut self, revision: PreparedRevision, sequence: u64, sectors: Vec<SectorRef>)
        requires
            old(self)@.wf(),
            old(self)@.stage is Addresses,
        ensures
            final(self)@ == old(self)@.with_revision(revision, sequence, sectors@),
            final(self)@.wf(),
    {
        let counted = PreparedRevision { sectors: sectors.len(), ..revision };
        match check_prepared_revision(
            &counted,
            &self.job,
            self.limits.max_coding_groups as usize,
        ) {
            Ok(()) => {},
            Err(error) => {
                self.fail(error);
                return ;
            },
        }
        let mut peers: Vec<MemberPlace> = Vec::new();
        push_copies(&mut peers, &self.peers);
        assert(peers@ =~= self.peers@);
        self.revision = Some(
            RevisionFacts {
                owner: revision.owner,
                sequence,
                revision_id: revision.revision_id,
            },
        );
        let rules = CodingRules::Guild { sector_size: self.limits.sector_size };
        let coded = CodedRevision {
            guild_id: self.job.guild_id,
            revision_id: revision.revision_id,
        };
        self.coding = SectorCoding::new(peers, coded, sectors, rules);
        self.stage = CommitStage::Coding;
    }

    fn take_coding(&mut self, event: CodingEvent)
        requires
            old(self)@.wf(),
            old(self)@.stage is Coding,
        ensures
            final(self)@ == old(self)@.coded(event),
            final(self)@.wf(),
    {
        let mut stage = CommitStage::Coding;
        let problem = match &self.previous {
            Some(previous) => if !previous.valid {
                Some(CommitError::InvalidPrevious)
            } else {
                next_generation(Some(previous.generation)).err()
            },
            None => None,
        };
        assert(problem == succession_problem(self@.previous));
        if let Some(coding) = &mut self.coding {
            coding.take(event);
            match coding.next() {
                CodingAction::Failed(error) => {
                    stage = CommitStage::Failed(CommitError::Coding(error));
                },
                CodingAction::Done => {
                    stage = match problem {
                        Some(error) => CommitStage::Failed(error),
                        None => CommitStage::Build,
                    };
                },
                _ => {},
            }
        }
        self.stage = stage;
    }

    fn take_signature(&mut self, hash: Id32, signer: Id32)
        requires
            old(self)@.wf(),
            old(self)@.stage == CommitStage::Signing(hash),
        ensures
            final(self)@ == old(self)@.signed(hash, signer),
            final(self)@.wf(),
    {
        self.signers.push(signer);
        self.stage = if self.signers.len() == BACKUP_PEERS {
            CommitStage::Assemble(hash)
        } else {
            CommitStage::Signing(hash)
        };
    }

    fn take_added(&mut self, at: usize)
        requires
            old(self)@.wf(),
            old(self)@.stage == CommitStage::Addresses(at),
        ensures
            final(self)@ == old(self)@.after(CommitEventModel::Added),
            final(self)@.wf(),
    {
        if at >= self.endpoints.len() {
            self.fail(CommitError::OutOfOrder);
            return ;
        }
        assert(self@.endpoints[at as int] == self.endpoints@[at as int]@);
        if Multiaddr::parse(self.endpoints[at].endpoint.as_str()).is_none() {
            self.fail(CommitError::InvalidEndpoint);
        } else {
            self.stage = CommitStage::Addresses(at + 1);
        }
    }

    /// Takes what came of the last action.
    pub fn take(&mut self, event: CommitEvent)
        requires
            old(self)@.wf(),
        ensures
            final(self)@ == old(self)@.after(event@),
            final(self)@.wf(),
    {
        match (self.stage, event) {
            (CommitStage::Failed(_), _) => {},
            (CommitStage::Done(_), _) => {},
            (_, CommitEvent::Failed) => {
                self.fail(CommitError::Outside);
            },
            (CommitStage::Addresses(at), CommitEvent::Added) => {
                self.take_added(at);
            },
            (CommitStage::Addresses(at), CommitEvent::Revision { revision, sequence, sectors }) => {
                if at < self.endpoints.len() {
                    self.fail(CommitError::OutOfOrder);
                } else {
                    self.take_revision(revision, sequence, sectors);
                }
            },
            (CommitStage::Coding, CommitEvent::Coding(event)) => {
                self.take_coding(event);
            },
            (CommitStage::Build, CommitEvent::Built(hash)) => {
                self.stage = CommitStage::Body(hash);
            },
            (CommitStage::Body(hash), CommitEvent::Published) => {
                self.signers = Vec::new();
                self.stage = CommitStage::Signing(hash);
            },
            (CommitStage::Signing(hash), CommitEvent::Signed(signer)) => {
                self.take_signature(hash, signer);
            },
            (CommitStage::Assemble(hash), CommitEvent::Assembled) => {
                self.stage = CommitStage::Certificate(hash);
            },
            (CommitStage::Certificate(hash), CommitEvent::Published) => {
                self.stage = CommitStage::Finalizing(hash, 0);
            },
            (CommitStage::Finalizing(hash, at), CommitEvent::Finalized) => {
                if at < self.remotes.len() {
                    self.stage = CommitStage::Finalizing(hash, at + 1);
                } else {
                    self.stage = CommitStage::Done(hash);
                }
            },
            _ => {
                self.fail(CommitError::OutOfOrder);
            },
        }
    }
}

pub(crate) fn push_group_ids(list: &mut Vec<Id32>, coding: &SectorCoding)
    ensures
        final(list)@ == old(list)@ + group_ids(coding@),
{
    let ghost start = list@;
    let ghost all = group_ids(coding@);
    let groups = coding.groups();
    let mut i: usize = 0;
    assert(start =~= start + all.take(0));
    while i < groups.len()
        invariant
            i <= groups@.len(),
            groups@ == coding@.groups,
            all == group_ids(coding@),
            list@ == start + all.take(i as int),
        decreases groups@.len() - i,
    {
        list.push(groups[i].id);
        assert(all[i as int] == groups@[i as int].id);
        assert(list@ =~= start + all.take(i + 1));
        i += 1;
    }
    assert(all.take(i as int) =~= all);
}

/// A job is done only once its revision is coded, all five members have signed
/// the state, and each other member has been told to take it over; and a job
/// that is done or has failed stays so.
pub proof fn a_done_job_is_certified(commit: CommitModel, event: CommitEventModel)
    requires
        commit.wf(),
    ensures
        commit.stage is Done ==> commit.coding->0.done() && commit.signers.len() == BACKUP_PEERS,
        commit.after(event).stage is Done && !(commit.stage is Done) ==> {
            &&& event is Finalized
            &&& commit.stage matches CommitStage::Finalizing(_, at) && at == commit.remotes.len()
        },
        commit.stage is Done || commit.stage is Failed ==> commit.after(event) == commit,
{
}

/// From its beginning to its end a job is about the same revision of the same
/// owner, with the same members, of whom the owner comes first, and on top of
/// the same last state.
pub proof fn a_job_keeps_what_it_began_with(commit: CommitModel, event: CommitEventModel)
    requires
        commit.wf(),
    ensures
        ({
            let after = commit.after(event);
            &&& after.job == commit.job
            &&& after.local == commit.local
            &&& after.limits == commit.limits
            &&& after.peers == commit.peers
            &&& after.remotes == commit.remotes
            &&& after.endpoints == commit.endpoints
            &&& after.previous == commit.previous
            &&& after.peers[0].node == after.job.owner
        }),
{
}

/// The members that are told to take a state over are all in the order of the
/// backup but the node itself.
pub proof fn everyone_else_is_remote(order: Seq<MemberPlace>, local: Id32)
    ensures
        remotes_of(order, local) == order.map_values(|entry: MemberPlace| entry.node).filter(
            |node: Id32| node != local,
        ),
    decreases order.len(),
{
    reveal(Seq::filter);
    let nodes = order.map_values(|entry: MemberPlace| entry.node);
    if order.len() > 0 {
        everyone_else_is_remote(order.drop_last(), local);
        assert(nodes.drop_last() =~= order.drop_last().map_values(|entry: MemberPlace| entry.node));
        assert(nodes.last() == order.last().node);
    }
}

/// The addresses that are added are those of the other members, each under its
/// own name, and all of them.
pub proof fn everyone_else_is_dialed(
    order: Seq<MemberPlace>,
    endpoints: Seq<Seq<Seq<char>>>,
    local: Id32,
)
    ensures
        forall|k: int|
            0 <= k < dialed(order, endpoints, local).len() ==> (#[trigger] dialed(
                order,
                endpoints,
                local,
            )[k]).0 != local && exists|i: int, j: int|
                0 <= i < order.len() && order[i].node == dialed(order, endpoints, local)[k].0 && 0
                    <= j < endpoints[order[i].place as int].len() && #[trigger] endpoints[
                    order[i].place as int][j] == dialed(order, endpoints, local)[k].1,
        forall|i: int, j: int|
            0 <= i < order.len() && order[i].node != local && 0 <= j
                < endpoints[order[i].place as int].len() ==> dialed(
                order,
                endpoints,
                local,
            ).contains((order[i].node, #[trigger] endpoints[order[i].place as int][j])),
    decreases order.len(),
{
    if order.len() > 0 {
        let fewer = order.drop_last();
        let last = order.last();
        everyone_else_is_dialed(fewer, endpoints, local);
        let before = dialed(fewer, endpoints, local);
        let after = dialed(order, endpoints, local);
        let added = tagged(last.node, endpoints[last.place as int]);
        assert forall|k: int| 0 <= k < after.len() implies (#[trigger] after[k]).0 != local
            && exists|i: int, j: int|
            0 <= i < order.len() && order[i].node == after[k].0 && 0 <= j
                < endpoints[order[i].place as int].len() && #[trigger] endpoints[
                order[i].place as int][j] == after[k].1 by {
            if k < before.len() {
                assert(after[k] == before[k]);
                let (i, j) = choose|i: int, j: int|
                    0 <= i < fewer.len() && fewer[i].node == before[k].0 && 0 <= j
                        < endpoints[fewer[i].place as int].len() && #[trigger] endpoints[
                        fewer[i].place as int][j] == before[k].1;
                assert(order[i] == fewer[i]);
                assert(endpoints[order[i].place as int][j] == after[k].1);
            } else {
                let j = k - before.len();
                assert(after[k] == added[j]);
                assert(order[order.len() - 1] == last);
                assert(endpoints[order[order.len() - 1].place as int][j] == after[k].1);
            }
        }
        assert forall|i: int, j: int|
            0 <= i < order.len() && order[i].node != local && 0 <= j
                < endpoints[order[i].place as int].len() implies after.contains(
            (order[i].node, #[trigger] endpoints[order[i].place as int][j]),
        ) by {
            let pair = (order[i].node, endpoints[order[i].place as int][j]);
            if i < fewer.len() {
                assert(fewer[i] == order[i]);
                assert(before.contains(
                    (fewer[i].node, endpoints[fewer[i].place as int][j]),
                ));
                let k = choose|k: int| 0 <= k < before.len() && before[k] == pair;
                assert(after[k] == pair);
            } else {
                assert(added[j] == pair);
                assert(after[before.len() + j] == pair);
            }
        }
    }
}

/// A job adds the addresses of the other members, one after another, and then
/// fetches the revision. A revision is coded if it is the one of the job, signed
/// by its owner, and has at least one sector and no more than fit the catalog.
pub proof fn a_job_codes_its_own_revision(
    commit: CommitModel,
    at: usize,
    revision: PreparedRevision,
    sequence: u64,
    sectors: Seq<SectorRef>,
)
    requires
        commit.wf(),
        commit.stage == CommitStage::Addresses(at),
    ensures
        at < commit.endpoints.len() ==> ({
            let (peer, endpoint) = commit.endpoints[at as int];
            match address_of_text(endpoint) {
                Some(address) => {
                    &&& commit.next() == (CommitActionModel::AddAddress { peer, address })
                    &&& commit.after(CommitEventModel::Added).stage == CommitStage::Addresses(
                        (at + 1) as usize,
                    )
                },
                None => commit.next() == CommitActionModel::Failed(CommitError::InvalidEndpoint)
                    && commit.after(CommitEventModel::Added).next() == CommitActionModel::Failed(
                    CommitError::InvalidEndpoint,
                ),
            }
        }),
        at == commit.endpoints.len() ==> ({
            let after = commit.after(CommitEventModel::Revision { revision, sequence, sectors });
            let signed = revision.signature_valid && revision.signer == commit.job.owner;
            let named = revision.owner == commit.job.owner && revision.guild_id
                == commit.job.guild_id && revision.revision_id == commit.job.revision_id;
            let fits = 0 < sectors.len() <= commit.limits.max_coding_groups;
            &&& commit.next() == CommitActionModel::FetchRevision(commit.job)
            &&& !(signed && named) ==> after.next() == CommitActionModel::Failed(
                CommitError::WrongRevision,
            )
            &&& signed && named && !fits ==> after.next() == CommitActionModel::Failed(
                CommitError::SectorCount,
            )
            &&& signed && named && fits ==> {
                &&& after.stage is Coding
                &&& after.revision == Some(
                    RevisionFacts {
                        owner: commit.job.owner,
                        sequence,
                        revision_id: commit.job.revision_id,
                    },
                )
                &&& after.coding->0.sectors == sectors
                &&& after.coding->0.peers == commit.peers
                &&& after.coding->0.rules == (CodingRules::Guild {
                    sector_size: commit.limits.sector_size,
                })
                &&& after.next() == CommitActionModel::Code(
                    CodingActionModel::LoadSector {
                        guild_id: commit.job.guild_id,
                        owner: commit.job.owner,
                        sector: sectors[0],
                    },
                )
            }
        }),
{
}

/// An entry of a list is of this node or group.
pub open spec fn lists(entries: Seq<MemberPlace>, id: Id32) -> bool {
    exists|i: int| 0 <= i < entries.len() && (#[trigger] entries[i]).node == id
}

/// Once all sectors are coded a state is built on top of the last one: its
/// generation is one higher, its parent is the last state, and it holds what that
/// one held, and besides it the revision and its groups. A last state that is not
/// valid, or that is the last there can be, ends the job.
pub proof fn a_state_builds_on_the_last_one(commit: CommitModel, event: CodingEvent)
    requires
        commit.wf(),
        commit.stage is Coding,
    ensures
        ({
            let coding = commit.coding->0.after(event);
            let after = commit.after(CommitEventModel::Coding(event));
            &&& after.coding == Some(coding)
            &&& coding.next() matches CodingActionModel::Failed(error) ==> after.next()
                == CommitActionModel::Failed(CommitError::Coding(error))
            &&& !(coding.next() is Failed || coding.next() is Done) ==> after.next()
                == CommitActionModel::Code(coding.next())
            &&& coding.next() is Done ==> match commit.previous {
                Some(previous) => if !previous.valid {
                    after.next() == CommitActionModel::Failed(CommitError::InvalidPrevious)
                } else if previous.generation == u64::MAX {
                    after.next() == CommitActionModel::Failed(CommitError::GenerationExhausted)
                } else {
                    after.next() matches CommitActionModel::Build {
                        guild_id,
                        generation,
                        parent,
                        revisions,
                        groups,
                    } && {
                        &&& guild_id == commit.job.guild_id
                        &&& generation == previous.generation + 1
                        &&& parent == Some(previous.hash)
                        &&& revisions.to_multiset() == previous.revisions.push(
                            commit.revision->0,
                        ).to_multiset()
                        &&& groups.len() == previous.groups.len() + coding.groups.len()
                        &&& forall|k: int|
                            0 <= k < previous.groups.len() ==> lists(
                                groups,
                                #[trigger] previous.groups[k],
                            )
                        &&& forall|k: int|
                            0 <= k < coding.groups.len() ==> lists(
                                groups,
                                (#[trigger] coding.groups[k]).id,
                            )
                    }
                },
                None => after.next() matches CommitActionModel::Build {
                    guild_id,
                    generation,
                    parent,
                    revisions,
                    groups,
                } && {
                    &&& guild_id == commit.job.guild_id
                    &&& generation == 1
                    &&& parent is None
                    &&& revisions == seq![commit.revision->0]
                    &&& groups.len() == coding.groups.len()
                    &&& forall|k: int|
                        0 <= k < coding.groups.len() ==> lists(
                            groups,
                            (#[trigger] coding.groups[k]).id,
                        )
                },
            }
        }),
{
    let coding = commit.coding->0.after(event);
    let all = groups_before(commit.previous) + group_ids(coding);
    let revisions = revisions_before(commit.previous).push(commit.revision->0);
    crate::ids::sorting_permutes_and_orders(revisions);
    lemma_all_sorted(all);
    if commit.previous is None {
        let none = Seq::<RevisionFacts>::empty();
        assert(revisions =~= none.push(commit.revision->0));
        let sorted = sorted_by_key(revisions);
        vstd::seq_lib::to_multiset_contains(sorted, sorted[0]);
        vstd::seq_lib::to_multiset_contains(revisions, sorted[0]);
        assert(sorted.contains(sorted[0]));
        assert(revisions.contains(sorted[0]));
        assert(sorted =~= seq![commit.revision->0]);
    }
    if let Some(previous) = commit.previous {
        assert forall|k: int| 0 <= k < previous.groups.len() implies lists(
            sorted_by_key(places_but(all, -1)),
            #[trigger] previous.groups[k],
        ) by {
            assert(all[k] == previous.groups[k]);
        }
    }
    let n = groups_before(commit.previous).len();
    assert forall|k: int| 0 <= k < coding.groups.len() implies lists(
        sorted_by_key(places_but(all, -1)),
        (#[trigger] coding.groups[k]).id,
    ) by {
        assert(all[n + k] == coding.groups[k].id);
    }
}

/// Sorting entries with their places loses none.
pub(crate) proof fn lemma_all_sorted(all: Seq<Id32>)
    ensures
        sorted_by_key(places_but(all, -1)).len() == all.len(),
        forall|k: int|
            0 <= k < all.len() ==> lists(sorted_by_key(places_but(all, -1)), #[trigger] all[k]),
{
    let plain = places_but(all, -1);
    lemma_all_placed(all);
    crate::ids::sorting_permutes_and_orders(plain);
    let sorted = sorted_by_key(plain);
    assert forall|k: int| 0 <= k < all.len() implies lists(sorted, #[trigger] all[k]) by {
        vstd::seq_lib::to_multiset_contains(plain, plain[k]);
        vstd::seq_lib::to_multiset_contains(sorted, plain[k]);
        assert(plain.contains(plain[k]));
        let i = choose|i: int| 0 <= i < sorted.len() && sorted[i] == plain[k];
        assert(sorted[i].node == all[k]);
    }
}

proof fn lemma_all_placed(all: Seq<Id32>)
    ensures
        places_but(all, -1).len() == all.len(),
        forall|k: int| 0 <= k < all.len() ==> (#[trigger] places_but(all, -1)[k]).node == all[k],
    decreases all.len(),
{
    if all.len() > 0 {
        lemma_all_placed(all.drop_last());
    }
}

/// A state that was built is published, signed by all five members in the order
/// of the backup, put together, and certified; then every other member takes it
/// over, one after another, and the node itself last. Everything is about the one
/// hash that was built.
pub proof fn a_built_state_is_signed_by_all_and_taken_over(
    commit: CommitModel,
    hash: Id32,
    signer: Id32,
)
    requires
        commit.wf(),
    ensures
        ({
            let key = StateKey { guild_id: commit.job.guild_id, hash };
            &&& commit.next() is Build ==> commit.after(CommitEventModel::Built(hash)).next()
                == CommitActionModel::PublishBody(key)
            &&& commit.stage == CommitStage::Body(hash) ==> {
                let after = commit.after(CommitEventModel::Published);
                after.stage == CommitStage::Signing(hash) && after.signers.len() == 0
                    && after.next() == (CommitActionModel::Sign {
                    signer: commit.peers[0].node,
                    local: commit.peers[0].node == commit.local,
                    state: key,
                })
            }
            &&& commit.stage == CommitStage::Signing(hash) ==> {
                let k = commit.signers.len() as int;
                let after = commit.after(CommitEventModel::Signed(signer));
                &&& commit.next() == (CommitActionModel::Sign {
                    signer: commit.peers[k].node,
                    local: commit.peers[k].node == commit.local,
                    state: key,
                })
                &&& after.signers == commit.signers.push(signer)
                &&& if k + 1 < 5 {
                    after.next() == (CommitActionModel::Sign {
                        signer: commit.peers[k + 1].node,
                        local: commit.peers[k + 1].node == commit.local,
                        state: key,
                    })
                } else {
                    after.stage == CommitStage::Assemble(hash) && after.next() is Assemble
                }
            }
            &&& commit.stage == CommitStage::Assemble(hash) ==> commit.after(
                CommitEventModel::Assembled,
            ).next() == CommitActionModel::PublishCertificate(key)
            &&& commit.stage == CommitStage::Certificate(hash) ==> commit.after(
                CommitEventModel::Published,
            ).stage == CommitStage::Finalizing(hash, 0)
            &&& commit.stage matches CommitStage::Finalizing(about, at) ==> {
                let after = commit.after(CommitEventModel::Finalized);
                let state = StateKey { guild_id: commit.job.guild_id, hash: about };
                if at < commit.remotes.len() {
                    &&& commit.next() == (CommitActionModel::Finalize {
                        peer: commit.remotes[at as int],
                        state,
                    })
                    &&& after.stage == CommitStage::Finalizing(about, (at + 1) as usize)
                } else {
                    &&& commit.next() == CommitActionModel::FinalizeLocal(state)
                    &&& after.next() == CommitActionModel::Done(about)
                }
            }
        }),
        commit.next() is Assemble ==> {
            let signatures = commit.next()->signatures;
            &&& signatures.len() == commit.signers.len()
            &&& forall|k: int|
                0 <= k < commit.signers.len() ==> lists(signatures, #[trigger] commit.signers[k])
        },
{
    lemma_all_sorted(commit.signers);
}

/// What fails, and what was not asked for, ends a job.
pub proof fn a_job_takes_only_what_it_asked_for(commit: CommitModel, event: CommitEventModel)
    requires
        commit.wf(),
        !(commit.stage is Done || commit.stage is Failed),
    ensures
        event is Failed ==> commit.after(event).next() == CommitActionModel::Failed(
            CommitError::Outside,
        ),
        !(event is Failed) && (match commit.next() {
            CommitActionModel::AddAddress { .. } => !(event is Added),
            CommitActionModel::FetchRevision(_) => !(event is Revision),
            CommitActionModel::Code(_) => !(event is Coding),
            CommitActionModel::Build { .. } => !(event is Built),
            CommitActionModel::PublishBody(_) => !(event is Published),
            CommitActionModel::Sign { .. } => !(event is Signed),
            CommitActionModel::Assemble { .. } => !(event is Assembled),
            CommitActionModel::PublishCertificate(_) => !(event is Published),
            CommitActionModel::Finalize { .. } => !(event is Finalized),
            CommitActionModel::FinalizeLocal(_) => !(event is Finalized),
            _ => false,
        }) ==> commit.after(event).next() == CommitActionModel::Failed(CommitError::OutOfOrder),
{
}

/// A job is begun by the coordinator of its guild alone, with all five members,
/// the owner first; one whose revision the last state holds is done already.
pub proof fn a_job_begins_with_its_owner(
    local: Id32,
    peers: Seq<GuildPeer>,
    previous: Option<PreviousModel>,
    job: BackupJob,
    limits: CodingLimits,
)
    requires
        start_problem(nodes_of(peers), job) is None,
    ensures
        ({
            let commit = begun(local, peers, previous, job, limits);
            &&& peers.len() == 5
            &&& exists|i: int| 0 <= i < peers.len() && (#[trigger] peers[i]).node == job.owner
            &&& commit.job == job && commit.local == local && commit.previous == previous
                && commit.limits == limits
            &&& commit.peers.len() == 5
            &&& commit.peers[0].node == job.owner
            &&& forall|k: int|
                0 <= k < 5 ==> (#[trigger] commit.peers[k]).place < 5 && commit.peers[k].node
                    == peers[commit.peers[k].place as int].node
            &&& forall|i: int, j: int|
                0 <= i < j < 5 ==> (#[trigger] commit.peers[i]).place != (
                #[trigger] commit.peers[j]).place
            &&& commit.stage == CommitStage::Addresses(0)
        }),
{
    let nodes = nodes_of(peers);
    crate::commit::lemma_first_place_in_range(nodes, job.owner);
    let leader = first_place(nodes, job.owner)->0;
    crate::commit::everyone_has_a_place(nodes, leader);
    assert(peers[leader].node == nodes[leader]);
    assert forall|k: int| 0 <= k < 5 implies (#[trigger] begun(
        local,
        peers,
        previous,
        job,
        limits,
    ).peers[k]).place < 5 && begun(local, peers, previous, job, limits).peers[k].node
        == peers[begun(local, peers, previous, job, limits).peers[k].place as int].node by {
        let entry = led_by(nodes, leader)[k];
        assert(entry.place < nodes.len() && entry.node == nodes[entry.place as int]);
    }
}

} // verus!
