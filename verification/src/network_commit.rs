//! Committing a source over direct connections: what the coordinator does, in
//! order, until every peer keeps the state and the directory knows of it.

use crate::backup_job::group_ids;
use crate::coding::{
    uncoded, CodedRevision, CodingAction, CodingActionModel, CodingEvent, CodingModel, CodingRules,
    CodingStage, SectorCoding,
};
use crate::commit::{
    all_unique, first_place, led_by, order_by_id, order_direct_peers, places_but, push_copies,
    CommitError, MemberPlace, SectorRef, BACKUP_PEERS, MAX_NUMBERED_SECTORS,
};
use crate::direct::{
    built_record, execution_step, record_counts, DirectRequest, KeptState, RecordRequest,
};
use crate::endpoints::texts;
use crate::ids::{sorted_by_key, Id32};
use vstd::prelude::*;

verus! {

/// The nodes of peers, in their order.
pub open spec fn nodes_in(order: Seq<MemberPlace>) -> Seq<Id32> {
    order.map_values(|entry: MemberPlace| entry.node)
}

/// A recovery record that a peer is to build about a subject.
#[derive(Clone, Copy, Debug)]
pub struct RecordPair {
    pub subject: Id32,
    pub peer: Id32,
}

/// The records about a subject: one of each other peer.
pub open spec fn records_about(subject: Id32, peers: Seq<Id32>) -> Seq<RecordPair>
    decreases peers.len(),
{
    if peers.len() == 0 {
        Seq::empty()
    } else {
        let before = records_about(subject, peers.drop_last());
        if peers.last() == subject {
            before
        } else {
            before.push(RecordPair { subject, peer: peers.last() })
        }
    }
}

/// The records about all members, one member after another.
pub open spec fn record_pairs(members: Seq<MemberPlace>, peers: Seq<Id32>) -> Seq<RecordPair>
    decreases members.len(),
{
    if members.len() == 0 {
        Seq::empty()
    } else {
        record_pairs(members.drop_last(), peers) + records_about(members.last().node, peers)
    }
}

fn push_records(list: &mut Vec<RecordPair>, subject: Id32, peers: &Vec<MemberPlace>)
    ensures
        final(list)@ == old(list)@ + records_about(subject, nodes_in(peers@)),
{
    let ghost start = list@;
    let ghost nodes = nodes_in(peers@);
    let mut i: usize = 0;
    assert(nodes.take(0) =~= Seq::empty());
    assert(start =~= start + records_about(subject, nodes.take(0)));
    while i < peers.len()
        invariant
            i <= peers@.len(),
            nodes == nodes_in(peers@),
            list@ == start + records_about(subject, nodes.take(i as int)),
        decreases peers@.len() - i,
    {
        proof {
            assert(nodes.take(i + 1).drop_last() =~= nodes.take(i as int));
            assert(nodes.take(i + 1).last() == peers@[i as int].node);
        }
        if !peers[i].node.equals(&subject) {
            list.push(RecordPair { subject, peer: peers[i].node });
        }
        assert(list@ =~= start + records_about(subject, nodes.take(i + 1)));
        i += 1;
    }
    assert(nodes.take(i as int) =~= nodes);
}

fn all_records(members: &Vec<MemberPlace>, peers: &Vec<MemberPlace>) -> (list: Vec<RecordPair>)
    ensures
        list@ == record_pairs(members@, nodes_in(peers@)),
{
    let mut list: Vec<RecordPair> = Vec::new();
    let mut i: usize = 0;
    assert(members@.take(0) =~= Seq::empty());
    while i < members.len()
        invariant
            i <= members@.len(),
            list@ == record_pairs(members@.take(i as int), nodes_in(peers@)),
        decreases members@.len() - i,
    {
        assert(members@.take(i + 1).drop_last() =~= members@.take(i as int));
        push_records(&mut list, members[i].node, peers);
        i += 1;
    }
    assert(members@.take(i as int) =~= members@);
    list
}

/// No record is about the peer that builds it.
pub proof fn no_peer_speaks_for_itself(members: Seq<MemberPlace>, peers: Seq<Id32>, i: int)
    requires
        0 <= i < record_pairs(members, peers).len(),
    ensures
        record_pairs(members, peers)[i].subject != record_pairs(members, peers)[i].peer,
    decreases members.len(),
{
    let before = record_pairs(members.drop_last(), peers);
    if i < before.len() {
        no_peer_speaks_for_itself(members.drop_last(), peers, i);
    } else {
        lemma_others_speak(members.last().node, peers, i - before.len());
    }
}

proof fn lemma_others_speak(subject: Id32, peers: Seq<Id32>, i: int)
    requires
        0 <= i < records_about(subject, peers).len(),
    ensures
        records_about(subject, peers)[i].subject == subject,
        records_about(subject, peers)[i].peer != subject,
    decreases peers.len(),
{
    let before = records_about(subject, peers.drop_last());
    if i < before.len() {
        lemma_others_speak(subject, peers.drop_last(), i);
    }
}

/// The records about a subject are one of each other peer.
proof fn lemma_records_about(subject: Id32, peers: Seq<Id32>)
    requires
        all_unique(peers),
    ensures
        ({
            let list = records_about(subject, peers);
            &&& list.len() == peers.len() - (if peers.contains(subject) {
                1int
            } else {
                0int
            })
            &&& all_unique(list)
            &&& forall|i: int|
                0 <= i < list.len() ==> (#[trigger] list[i]).subject == subject && list[i].peer
                    != subject && peers.contains(list[i].peer)
            &&& forall|peer: Id32|
                peers.contains(peer) && peer != subject ==> #[trigger] list.contains(
                    RecordPair { subject, peer },
                )
        }),
    decreases peers.len(),
{
    if peers.len() > 0 {
        let shorter = peers.drop_last();
        let before = records_about(subject, shorter);
        let list = records_about(subject, peers);
        let last = peers.last();
        assert(all_unique(shorter)) by {
            assert forall|i: int, j: int| 0 <= i < j < shorter.len() implies shorter[i]
                != shorter[j] by {
                assert(peers[i] != peers[j]);
            }
        }
        lemma_records_about(subject, shorter);
        assert(!shorter.contains(last)) by {
            if shorter.contains(last) {
                let k = choose|k: int| 0 <= k < shorter.len() && shorter[k] == last;
                assert(peers[k] == peers[peers.len() - 1]);
            }
        }
        assert forall|node: Id32| #[trigger] peers.contains(node) == (shorter.contains(node) || node
            == last) by {
            if peers.contains(node) && node != last {
                let k = choose|k: int| 0 <= k < peers.len() && peers[k] == node;
                assert(shorter[k] == node);
            }
            if shorter.contains(node) {
                let k = choose|k: int| 0 <= k < shorter.len() && shorter[k] == node;
                assert(peers[k] == node);
            }
            assert(peers[peers.len() - 1] == last);
        }
        assert forall|i: int| 0 <= i < list.len() implies (#[trigger] list[i]).subject == subject
            && list[i].peer != subject && peers.contains(list[i].peer) by {
            if i < before.len() {
                assert(list[i] == before[i]);
            }
        }
        assert forall|i: int, j: int| 0 <= i < j < list.len() implies list[i] != list[j] by {
            assert(list[i] == before[i]);
            if j < before.len() {
                assert(list[j] == before[j]);
            } else {
                assert(shorter.contains(before[i].peer));
            }
        }
        assert forall|peer: Id32| peers.contains(peer) && peer != subject implies #[trigger] list.contains(
            RecordPair { subject, peer },
        ) by {
            let pair = RecordPair { subject, peer };
            if peer == last {
                assert(list[list.len() - 1] == pair);
            } else {
                assert(before.contains(pair));
                let k = choose|k: int| 0 <= k < before.len() && before[k] == pair;
                assert(list[k] == pair);
            }
        }
    }
}

/// The records about members, who are all peers, are one for each member and
/// each other peer.
proof fn lemma_record_pairs(members: Seq<MemberPlace>, peers: Seq<Id32>)
    requires
        all_unique(peers),
        all_unique(nodes_in(members)),
        forall|i: int| 0 <= i < members.len() ==> peers.contains((#[trigger] members[i]).node),
    ensures
        ({
            let list = record_pairs(members, peers);
            &&& list.len() == members.len() * (peers.len() - 1)
            &&& all_unique(list)
            &&& forall|i: int|
                0 <= i < list.len() ==> nodes_in(members).contains((#[trigger] list[i]).subject)
                    && peers.contains(list[i].peer) && list[i].peer != list[i].subject
            &&& forall|pair: RecordPair|
                nodes_in(members).contains(pair.subject) && peers.contains(pair.peer) && pair.peer
                    != pair.subject ==> #[trigger] list.contains(pair)
        }),
    decreases members.len(),
{
    if members.len() > 0 {
        let shorter = members.drop_last();
        let before = record_pairs(shorter, peers);
        let subject = members.last().node;
        let about = records_about(subject, peers);
        let list = record_pairs(members, peers);
        let nodes = nodes_in(members);
        let earlier = nodes_in(shorter);
        assert(all_unique(earlier)) by {
            assert forall|i: int, j: int| 0 <= i < j < earlier.len() implies earlier[i]
                != earlier[j] by {
                assert(nodes[i] != nodes[j]);
            }
        }
        assert forall|i: int| 0 <= i < shorter.len() implies peers.contains(
            (#[trigger] shorter[i]).node,
        ) by {
            assert(shorter[i] == members[i]);
        }
        lemma_record_pairs(shorter, peers);
        lemma_records_about(subject, peers);
        assert(peers.contains(members[members.len() - 1].node));
        assert(members.len() * (peers.len() - 1) == shorter.len() * (peers.len() - 1) + (
        peers.len() - 1)) by (nonlinear_arith)
            requires
                members.len() == shorter.len() + 1,
        ;
        assert(!earlier.contains(subject)) by {
            if earlier.contains(subject) {
                let k = choose|k: int| 0 <= k < earlier.len() && earlier[k] == subject;
                assert(nodes[k] == nodes[nodes.len() - 1]);
            }
        }
        assert forall|node: Id32| #[trigger] nodes.contains(node) == (earlier.contains(node)
            || node == subject) by {
            if nodes.contains(node) && node != subject {
                let k = choose|k: int| 0 <= k < nodes.len() && nodes[k] == node;
                assert(earlier[k] == node);
            }
            if earlier.contains(node) {
                let k = choose|k: int| 0 <= k < earlier.len() && earlier[k] == node;
                assert(nodes[k] == node);
            }
            assert(nodes[nodes.len() - 1] == subject);
        }
        assert forall|i: int| 0 <= i < list.len() implies nodes.contains(
            (#[trigger] list[i]).subject,
        ) && peers.contains(list[i].peer) && list[i].peer != list[i].subject by {
            if i < before.len() {
                assert(list[i] == before[i]);
            } else {
                assert(list[i] == about[i - before.len()]);
            }
        }
        assert forall|i: int, j: int| 0 <= i < j < list.len() implies list[i] != list[j] by {
            if j < before.len() {
                assert(list[i] == before[i] && list[j] == before[j]);
            } else if i < before.len() {
                assert(list[i] == before[i] && list[j] == about[j - before.len()]);
                assert(earlier.contains(before[i].subject));
            } else {
                assert(list[i] == about[i - before.len()] && list[j] == about[j - before.len()]);
            }
        }
        assert forall|pair: RecordPair|
            nodes.contains(pair.subject) && peers.contains(pair.peer) && pair.peer
                != pair.subject implies #[trigger] list.contains(pair) by {
            if pair.subject == subject {
                assert(pair == RecordPair { subject, peer: pair.peer });
                assert(about.contains(pair));
                let k = choose|k: int| 0 <= k < about.len() && about[k] == pair;
                assert(list[before.len() + k] == pair);
            } else {
                assert(before.contains(pair));
                let k = choose|k: int| 0 <= k < before.len() && before[k] == pair;
                assert(list[k] == pair);
            }
        }
    }
}

/// Where everyone has a place, everyone is named once.
proof fn lemma_everyone_is_named(nodes: Seq<Id32>, order: Seq<MemberPlace>)
    requires
        all_unique(nodes),
        order.len() == nodes.len(),
        forall|i: int|
            0 <= i < order.len() ==> (#[trigger] order[i]).place < nodes.len() && order[i].node
                == nodes[order[i].place as int],
        forall|i: int, j: int|
            0 <= i < j < order.len() ==> (#[trigger] order[i]).place != (
            #[trigger] order[j]).place,
    ensures
        all_unique(nodes_in(order)),
        nodes_in(order).to_set() == nodes.to_set(),
{
    let named = nodes_in(order);
    assert forall|i: int, j: int| 0 <= i < j < named.len() implies named[i] != named[j] by {
        let a = order[i].place as int;
        let b = order[j].place as int;
        assert(a != b);
        assert(named[i] == nodes[a] && named[j] == nodes[b]);
        if a < b {
            assert(nodes[a] != nodes[b]);
        } else {
            assert(nodes[b] != nodes[a]);
        }
    }
    assert(named.no_duplicates());
    assert(nodes.no_duplicates());
    named.unique_seq_to_set();
    nodes.unique_seq_to_set();
    assert(named.to_set().subset_of(nodes.to_set())) by {
        assert forall|node: Id32| named.to_set().contains(node) implies nodes.to_set().contains(
            node,
        ) by {
            let k = choose|k: int| 0 <= k < named.len() && named[k] == node;
            assert(nodes[order[k].place as int] == node);
        }
    }
    vstd::set_lib::lemma_subset_equality(named.to_set(), nodes.to_set());
}

/// The generation of the first state of a guild.
pub const FIRST_GENERATION: u64 = 1;

/// The number of the first revision of a member.
pub const FIRST_SEQUENCE: u64 = 1;

/// How far a commit has come.
#[derive(Clone, Copy, Debug)]
pub enum NetworkStage {
    Profiles,
    Prepare,
    Coding,
    Build,
    Signing,
    Assemble,
    /// Peers keep the state, up to this one.
    Storing(Id32, usize),
    /// This record is built.
    Record(Id32, usize),
    /// This record was built and is published.
    Publish(Id32, usize),
    Done(Id32),
    Failed(CommitError),
}

/// What a commit needs next.
#[derive(Debug)]
pub enum NetworkAction {
    /// Ask the peer at an endpoint for its profile.
    AskProfile { endpoint: usize },
    /// Have the owner prepare the source as the first revision in the guild.
    Prepare { owner: Id32, guild_id: Id32, sequence: u64 },
    Code(CodingAction),
    /// Build the first state of the guild. Groups and members are given by their places,
    /// those of the groups in the order in which they were coded.
    Build {
        guild_id: Id32,
        generation: u64,
        groups: Vec<MemberPlace>,
        members: Vec<MemberPlace>,
    },
    Sign { signer: Id32 },
    /// Put the signatures together, in this order.
    Assemble { signatures: Vec<MemberPlace> },
    Store { peer: Id32 },
    /// Have a peer build a record about a member.
    BuildRecord { peer: Id32, request: RecordRequest },
    PublishRecord,
    Done { guild_id: Id32, hash: Id32, owner: Id32, coding_groups: usize },
    Failed(CommitError),
}

/// What a commit needs next, as a plain value.
pub enum NetworkActionModel {
    AskProfile { endpoint: nat },
    Prepare { owner: Id32, guild_id: Id32, sequence: u64 },
    Code(CodingActionModel),
    Build {
        guild_id: Id32,
        generation: u64,
        groups: Seq<MemberPlace>,
        members: Seq<MemberPlace>,
    },
    Sign { signer: Id32 },
    Assemble { signatures: Seq<MemberPlace> },
    Store { peer: Id32 },
    BuildRecord { peer: Id32, request: RecordRequest },
    PublishRecord,
    Done { guild_id: Id32, hash: Id32, owner: Id32, coding_groups: nat },
    Failed(CommitError),
}

impl NetworkAction {
    pub open spec fn view(&self) -> NetworkActionModel {
        match *self {
            NetworkAction::AskProfile { endpoint } => NetworkActionModel::AskProfile {
                endpoint: endpoint as nat,
            },
            NetworkAction::Prepare { owner, guild_id, sequence } => NetworkActionModel::Prepare {
                owner,
                guild_id,
                sequence,
            },
            NetworkAction::Code(action) => NetworkActionModel::Code(action@),
            NetworkAction::Build { guild_id, generation, groups, members } =>
                NetworkActionModel::Build {
                guild_id,
                generation,
                groups: groups@,
                members: members@,
            },
            NetworkAction::Sign { signer } => NetworkActionModel::Sign { signer },
            NetworkAction::Assemble { signatures } => NetworkActionModel::Assemble {
                signatures: signatures@,
            },
            NetworkAction::Store { peer } => NetworkActionModel::Store { peer },
            NetworkAction::BuildRecord { peer, request } => NetworkActionModel::BuildRecord {
                peer,
                request,
            },
            NetworkAction::PublishRecord => NetworkActionModel::PublishRecord,
            NetworkAction::Done { guild_id, hash, owner, coding_groups } =>
                NetworkActionModel::Done {
                guild_id,
                hash,
                owner,
                coding_groups: coding_groups as nat,
            },
            NetworkAction::Failed(error) => NetworkActionModel::Failed(error),
        }
    }
}

/// What came of an action.
#[derive(Debug)]
pub enum NetworkEvent {
    /// A profile came: who signed it, and what it says.
    Profile { signer: Id32, node: Id32, failure_domain: String },
    /// The revision that its owner prepared.
    Prepared { signature_valid: bool, owner: Id32, revision_id: u128, sectors: Vec<SectorRef> },
    Coding(CodingEvent),
    /// The state was built and is in order.
    Built,
    /// A signature came; by whom it is.
    Signed(Id32),
    /// The signatures certify the state.
    Assembled(Id32),
    Stored,
    Record,
    Published,
    Failed,
}

/// What came of an action, as a plain value.
pub enum NetworkEventModel {
    Profile { signer: Id32, node: Id32, failure_domain: Seq<char> },
    Prepared { signature_valid: bool, owner: Id32, revision_id: u128, sectors: Seq<SectorRef> },
    Coding(CodingEvent),
    Built,
    Signed(Id32),
    Assembled(Id32),
    Stored,
    Record,
    Published,
    Failed,
}

impl NetworkEvent {
    pub open spec fn view(&self) -> NetworkEventModel {
        match *self {
            NetworkEvent::Profile { signer, node, failure_domain } => NetworkEventModel::Profile {
                signer,
                node,
                failure_domain: failure_domain@,
            },
            NetworkEvent::Prepared { signature_valid, owner, revision_id, sectors } =>
                NetworkEventModel::Prepared {
                signature_valid,
                owner,
                revision_id,
                sectors: sectors@,
            },
            NetworkEvent::Coding(event) => NetworkEventModel::Coding(event),
            NetworkEvent::Built => NetworkEventModel::Built,
            NetworkEvent::Signed(signer) => NetworkEventModel::Signed(signer),
            NetworkEvent::Assembled(hash) => NetworkEventModel::Assembled(hash),
            NetworkEvent::Stored => NetworkEventModel::Stored,
            NetworkEvent::Record => NetworkEventModel::Record,
            NetworkEvent::Published => NetworkEventModel::Published,
            NetworkEvent::Failed => NetworkEventModel::Failed,
        }
    }
}

/// A source that is being committed over direct connections.
#[derive(Debug)]
pub struct NetworkCommit {
    coordinator: Id32,
    guild_id: Id32,
    sector_size: usize,
    nodes: Vec<Id32>,
    failure_domains: Vec<String>,
    peers: Vec<MemberPlace>,
    members: Vec<MemberPlace>,
    records: Vec<RecordPair>,
    coding: Option<SectorCoding>,
    signers: Vec<Id32>,
    stage: NetworkStage,
}

/// A source that is being committed over direct connections, for contracts.
#[verifier::ext_equal]
pub struct NetworkModel {
    pub coordinator: Id32,
    /// The guild that comes to be.
    pub guild_id: Id32,
    /// How long every filler must be.
    pub sector_size: usize,
    /// The nodes and failure domains of the profiles that came.
    pub nodes: Seq<Id32>,
    pub failure_domains: Seq<Seq<char>>,
    /// The coordinator first, the others by identity; none before all
    /// profiles are there.
    pub peers: Seq<MemberPlace>,
    /// The peers by identity.
    pub members: Seq<MemberPlace>,
    pub records: Seq<RecordPair>,
    pub coding: Option<CodingModel>,
    pub signers: Seq<Id32>,
    pub stage: NetworkStage,
}

/// Why five profiles do not make up a guild, if they do not.
pub open spec fn profile_problem(
    nodes: Seq<Id32>,
    failure_domains: Seq<Seq<char>>,
    coordinator: Id32,
) -> Option<CommitError> {
    if !all_unique(nodes) || !all_unique(failure_domains) {
        Some(CommitError::DuplicatePeers)
    } else if first_place(nodes, coordinator) is None {
        Some(CommitError::OwnerNotMember)
    } else {
        None
    }
}

impl NetworkModel {
    /// The peers are known.
    pub open spec fn ordered(self) -> bool {
        !(self.stage is Profiles || self.stage is Failed)
    }

    /// The revision is known.
    pub open spec fn prepared(self) -> bool {
        self.ordered() && !(self.stage is Prepare)
    }

    /// Every sector is coded.
    pub open spec fn coded(self) -> bool {
        self.prepared() && !(self.stage is Coding)
    }

    /// Every peer has signed.
    pub open spec fn certifying(self) -> bool {
        self.coded() && !(self.stage is Build) && !(self.stage is Signing)
    }

    /// Every peer keeps the state.
    pub open spec fn kept(self) -> bool {
        self.stage is Record || self.stage is Publish || self.stage is Done
    }

    /// The peers are the five that gave their profiles: no identity and no
    /// failure domain is there twice, the coordinator comes first, and there is
    /// a record for each of them and each other.
    pub open spec fn follows_profiles(self) -> bool {
        let leader = first_place(self.nodes, self.coordinator);
        &&& self.nodes.len() == BACKUP_PEERS
        &&& all_unique(self.nodes)
        &&& all_unique(self.failure_domains)
        &&& leader is Some
        &&& self.peers == led_by(self.nodes, leader->0)
        &&& self.peers.len() == BACKUP_PEERS
        &&& self.peers[0].node == self.coordinator
        &&& self.members == sorted_by_key(places_but(self.nodes, -1))
        &&& self.records == record_pairs(self.members, nodes_in(self.peers))
    }

    pub open spec fn wf(self) -> bool {
        &&& self.nodes.len() == self.failure_domains.len()
        &&& self.nodes.len() <= BACKUP_PEERS
        &&& self.signers.len() <= BACKUP_PEERS
        &&& (self.stage is Profiles ==> self.nodes.len() < BACKUP_PEERS)
        &&& (self.coding matches Some(coding) ==> coding.wf())
        &&& (self.ordered() ==> self.follows_profiles())
        &&& (self.prepared() ==> self.coding is Some)
        &&& (self.coded() ==> self.coding->0.done())
        &&& (self.stage is Signing ==> self.signers.len() < BACKUP_PEERS)
        &&& (self.certifying() ==> self.signers.len() == BACKUP_PEERS)
        &&& (self.stage matches NetworkStage::Storing(_, at) ==> at < BACKUP_PEERS)
        &&& (self.stage matches NetworkStage::Record(_, at) ==> at < self.records.len())
        &&& (self.stage matches NetworkStage::Publish(_, at) ==> at < self.records.len())
    }

    /// What is needed next.
    pub open spec fn next(self) -> NetworkActionModel {
        match self.stage {
            NetworkStage::Profiles => NetworkActionModel::AskProfile { endpoint: self.nodes.len() },
            NetworkStage::Prepare => NetworkActionModel::Prepare {
                owner: self.peers[0].node,
                guild_id: self.guild_id,
                sequence: FIRST_SEQUENCE,
            },
            NetworkStage::Coding => NetworkActionModel::Code(self.coding->0.next()),
            NetworkStage::Build => NetworkActionModel::Build {
                guild_id: self.guild_id,
                generation: FIRST_GENERATION,
                groups: sorted_by_key(places_but(group_ids(self.coding->0), -1)),
                members: self.members,
            },
            NetworkStage::Signing => NetworkActionModel::Sign {
                signer: self.peers[self.signers.len() as int].node,
            },
            NetworkStage::Assemble => NetworkActionModel::Assemble {
                signatures: sorted_by_key(places_but(self.signers, -1)),
            },
            NetworkStage::Storing(_, at) => NetworkActionModel::Store {
                peer: self.peers[at as int].node,
            },
            NetworkStage::Record(hash, at) => NetworkActionModel::BuildRecord {
                peer: self.records[at as int].peer,
                request: self.record_request(hash, at as int),
            },
            NetworkStage::Publish(_, _) => NetworkActionModel::PublishRecord,
            NetworkStage::Done(hash) => NetworkActionModel::Done {
                guild_id: self.guild_id,
                hash,
                owner: self.peers[0].node,
                coding_groups: self.coding->0.groups.len(),
            },
            NetworkStage::Failed(error) => NetworkActionModel::Failed(error),
        }
    }

    /// What the record at a place is to say: it is about the first state, and
    /// does not expire.
    pub open spec fn record_request(self, hash: Id32, at: int) -> RecordRequest {
        RecordRequest {
            subject: self.records[at].subject,
            guild_id: self.guild_id,
            checkpoint_hash: hash,
            checkpoint_generation: FIRST_GENERATION,
            expires_at_unix_seconds: u64::MAX,
        }
    }

    /// The commit has failed.
    pub open spec fn failed(self, error: CommitError) -> NetworkModel {
        NetworkModel { stage: NetworkStage::Failed(error), ..self }
    }

    /// The commit with another profile.
    pub open spec fn with_profile(
        self,
        signer: Id32,
        node: Id32,
        failure_domain: Seq<char>,
    ) -> NetworkModel {
        let added = NetworkModel {
            nodes: self.nodes.push(node),
            failure_domains: self.failure_domains.push(failure_domain),
            ..self
        };
        if signer != node {
            self.failed(CommitError::WrongProfile)
        } else if added.nodes.len() < BACKUP_PEERS {
            added
        } else {
            match profile_problem(added.nodes, added.failure_domains, self.coordinator) {
                Some(error) => added.failed(error),
                None => {
                    let leader = first_place(added.nodes, self.coordinator)->0;
                    let peers = led_by(added.nodes, leader);
                    let members = sorted_by_key(places_but(added.nodes, -1));
                    NetworkModel {
                        peers,
                        members,
                        records: record_pairs(members, nodes_in(peers)),
                        stage: NetworkStage::Prepare,
                        ..added
                    }
                },
            }
        }
    }

    /// The stage in which sectors are coded, or the next where there are none.
    pub open spec fn coding_stage(coding: CodingModel) -> NetworkStage {
        match coding.stage {
            CodingStage::Failed(error) => NetworkStage::Failed(CommitError::Coding(error)),
            _ => if coding.done() {
                NetworkStage::Build
            } else {
                NetworkStage::Coding
            },
        }
    }

    /// The commit with the revision that its owner prepared.
    pub open spec fn with_revision(
        self,
        signature_valid: bool,
        owner: Id32,
        revision_id: u128,
        sectors: Seq<SectorRef>,
    ) -> NetworkModel {
        if !signature_valid || owner != self.coordinator {
            self.failed(CommitError::WrongRevision)
        } else if sectors.len() > MAX_NUMBERED_SECTORS {
            self.failed(CommitError::SectorCount)
        } else {
            let rules = CodingRules::Direct { sector_size: self.sector_size };
            let revision = CodedRevision { guild_id: self.guild_id, revision_id };
            let coding = uncoded(self.peers, revision, sectors, rules);
            NetworkModel { coding: Some(coding), stage: Self::coding_stage(coding), ..self }
        }
    }

    /// The commit after an event of its coding.
    pub open spec fn after_coding(self, event: CodingEvent) -> NetworkModel {
        let coding = self.coding->0.after(event);
        NetworkModel { coding: Some(coding), stage: Self::coding_stage(coding), ..self }
    }

    /// The stage at a record, or behind the last.
    pub open spec fn record_stage(self, hash: Id32, at: int) -> NetworkStage {
        if at < self.records.len() {
            NetworkStage::Record(hash, at as usize)
        } else {
            NetworkStage::Done(hash)
        }
    }

    /// The commit after an event.
    pub open spec fn after(self, event: NetworkEventModel) -> NetworkModel {
        match (self.stage, event) {
            (NetworkStage::Failed(_), _) => self,
            (NetworkStage::Done(_), _) => self,
            (_, NetworkEventModel::Failed) => self.failed(CommitError::Outside),
            (
                NetworkStage::Profiles,
                NetworkEventModel::Profile { signer, node, failure_domain },
            ) => self.with_profile(signer, node, failure_domain),
            (
                NetworkStage::Prepare,
                NetworkEventModel::Prepared { signature_valid, owner, revision_id, sectors },
            ) => self.with_revision(signature_valid, owner, revision_id, sectors),
            (NetworkStage::Coding, NetworkEventModel::Coding(event)) => self.after_coding(event),
            (NetworkStage::Build, NetworkEventModel::Built) => NetworkModel {
                signers: Seq::empty(),
                stage: NetworkStage::Signing,
                ..self
            },
            (NetworkStage::Signing, NetworkEventModel::Signed(signer)) => NetworkModel {
                signers: self.signers.push(signer),
                stage: if self.signers.len() + 1 == BACKUP_PEERS {
                    NetworkStage::Assemble
                } else {
                    NetworkStage::Signing
                },
                ..self
            },
            (NetworkStage::Assemble, NetworkEventModel::Assembled(hash)) => NetworkModel {
                stage: NetworkStage::Storing(hash, 0),
                ..self
            },
            (NetworkStage::Storing(hash, at), NetworkEventModel::Stored) => NetworkModel {
                stage: if at + 1 < BACKUP_PEERS {
                    NetworkStage::Storing(hash, (at + 1) as usize)
                } else {
                    self.record_stage(hash, 0)
                },
                ..self
            },
            (NetworkStage::Record(hash, at), NetworkEventModel::Record) => NetworkModel {
                stage: NetworkStage::Publish(hash, at),
                ..self
            },
            (NetworkStage::Publish(hash, at), NetworkEventModel::Published) => NetworkModel {
                stage: self.record_stage(hash, at + 1),
                ..self
            },
            _ => self.failed(CommitError::OutOfOrder),
        }
    }
}

/// A commit that has just begun.
pub open spec fn commit_begun(
    coordinator: Id32,
    guild_id: Id32,
    sector_size: usize,
) -> NetworkModel {
    NetworkModel {
        coordinator,
        guild_id,
        sector_size,
        nodes: Seq::empty(),
        failure_domains: Seq::empty(),
        peers: Seq::empty(),
        members: Seq::empty(),
        records: Seq::empty(),
        coding: None,
        signers: Seq::empty(),
        stage: NetworkStage::Profiles,
    }
}

/// Begins to commit a source over direct connections to five peers, who become
/// a guild under a fresh identity.
pub fn commit_source_over_network(
    coordinator: Id32,
    guild_id: Id32,
    endpoints: usize,
    sector_size: usize,
) -> (commit: Result<NetworkCommit, CommitError>)
    ensures
        match commit {
            Ok(commit) => endpoints == BACKUP_PEERS && commit@ == commit_begun(
                coordinator,
                guild_id,
                sector_size,
            ) && commit@.wf(),
            Err(error) => endpoints != BACKUP_PEERS && error == CommitError::NotFivePeers,
        },
{
    if endpoints != BACKUP_PEERS {
        return Err(CommitError::NotFivePeers);
    }
    let commit = NetworkCommit {
        coordinator,
        guild_id,
        sector_size,
        nodes: Vec::new(),
        failure_domains: Vec::new(),
        peers: Vec::new(),
        members: Vec::new(),
        records: Vec::new(),
        coding: None,
        signers: Vec::new(),
        stage: NetworkStage::Profiles,
    };
    assert(commit@ =~= commit_begun(coordinator, guild_id, sector_size));
    Ok(commit)
}

impl NetworkCommit {
    pub closed spec fn view(&self) -> NetworkModel {
        NetworkModel {
            coordinator: self.coordinator,
            guild_id: self.guild_id,
            sector_size: self.sector_size,
            nodes: self.nodes@,
            failure_domains: texts(self.failure_domains@),
            peers: self.peers@,
            members: self.members@,
            records: self.records@,
            coding: match self.coding {
                Some(coding) => Some(coding@),
                None => None,
            },
            signers: self.signers@,
            stage: self.stage,
        }
    }

    /// What is needed next.
    pub fn next(&self) -> (action: NetworkAction)
        requires
            self@.wf(),
        ensures
            action@ == self@.next(),
    {
        match self.stage {
            NetworkStage::Profiles => NetworkAction::AskProfile { endpoint: self.nodes.len() },
            NetworkStage::Prepare => NetworkAction::Prepare {
                owner: self.peers[0].node,
                guild_id: self.guild_id,
                sequence: FIRST_SEQUENCE,
            },
            NetworkStage::Coding => match &self.coding {
                Some(coding) => NetworkAction::Code(coding.next()),
                None => NetworkAction::Failed(CommitError::OutOfOrder),
            },
            NetworkStage::Build => {
                let mut groups: Vec<Id32> = Vec::new();
                if let Some(coding) = &self.coding {
                    crate::backup_job::push_group_ids(&mut groups, coding);
                }
                assert(groups@ =~= group_ids(self@.coding->0));
                let mut members: Vec<MemberPlace> = Vec::new();
                push_copies(&mut members, &self.members);
                assert(members@ =~= self@.members);
                NetworkAction::Build {
                    guild_id: self.guild_id,
                    generation: FIRST_GENERATION,
                    groups: order_by_id(&groups),
                    members,
                }
            },
            NetworkStage::Signing => NetworkAction::Sign {
                signer: self.peers[self.signers.len()].node,
            },
            NetworkStage::Assemble => NetworkAction::Assemble {
                signatures: order_by_id(&self.signers),
            },
            NetworkStage::Storing(_, at) => NetworkAction::Store { peer: self.peers[at].node },
            NetworkStage::Record(hash, at) => NetworkAction::BuildRecord {
                peer: self.records[at].peer,
                request: RecordRequest {
                    subject: self.records[at].subject,
                    guild_id: self.guild_id,
                    checkpoint_hash: hash,
                    checkpoint_generation: FIRST_GENERATION,
                    expires_at_unix_seconds: u64::MAX,
                },
            },
            NetworkStage::Publish(_, _) => NetworkAction::PublishRecord,
            NetworkStage::Done(hash) => {
                let mut coding_groups: usize = 0;
                if let Some(coding) = &self.coding {
                    coding_groups = coding.groups().len();
                }
                NetworkAction::Done {
                    guild_id: self.guild_id,
                    hash,
                    owner: self.peers[0].node,
                    coding_groups,
                }
            },
            NetworkStage::Failed(error) => NetworkAction::Failed(error),
        }
    }

    fn fail(&mut self, error: CommitError)
        ensures
            final(self)@ == old(self)@.failed(error),
    {
        self.stage = NetworkStage::Failed(error);
    }

    fn take_profile(&mut self, signer: Id32, node: Id32, failure_domain: String)
        requires
            old(self)@.wf(),
            old(self)@.stage is Profiles,
        ensures
            final(self)@ == old(self)@.with_profile(signer, node, failure_domain@),
            final(self)@.wf(),
    {
        if !signer.equals(&node) {
            self.fail(CommitError::WrongProfile);
            return ;
        }
        let ghost domains = texts(self.failure_domains@);
        let ghost domain = failure_domain@;
        self.nodes.push(node);
        self.failure_domains.push(failure_domain);
        assert(texts(self.failure_domains@) =~= domains.push(domain));
        if self.nodes.len() < BACKUP_PEERS {
            return ;
        }
        match order_direct_peers(&self.nodes, &self.failure_domains, &self.coordinator) {
            Ok(peers) => {
                self.members = order_by_id(&self.nodes);
                self.records = all_records(&self.members, &peers);
                proof {
                    let leader = first_place(self.nodes@, self.coordinator)->0;
                    crate::commit::lemma_first_place_in_range(self.nodes@, self.coordinator);
                    crate::commit::everyone_has_a_place(self.nodes@, leader);
                }
                self.peers = peers;
                self.stage = NetworkStage::Prepare;
            },
            Err(error) => {
                self.fail(error);
            },
        }
    }

    fn settle_coding(&mut self)
        requires
            old(self)@.coding is Some,
            old(self)@.coding->0.wf(),
        ensures
            final(self)@ == (NetworkModel {
                stage: NetworkModel::coding_stage(old(self)@.coding->0),
                ..old(self)@
            }),
    {
        let mut stage = NetworkStage::Coding;
        if let Some(coding) = &self.coding {
            match coding.next() {
                CodingAction::Failed(error) => {
                    stage = NetworkStage::Failed(CommitError::Coding(error));
                },
                CodingAction::Done => {
                    stage = NetworkStage::Build;
                },
                _ => {},
            }
        }
        self.stage = stage;
    }

    fn take_revision(
        &mut self,
        signature_valid: bool,
        owner: Id32,
        revision_id: u128,
        sectors: Vec<SectorRef>,
    )
        requires
            old(self)@.wf(),
            old(self)@.stage is Prepare,
        ensures
            final(self)@ == old(self)@.with_revision(
                signature_valid,
                owner,
                revision_id,
                sectors@,
            ),
            final(self)@.wf(),
    {
        if !signature_valid || !owner.equals(&self.coordinator) {
            self.fail(CommitError::WrongRevision);
            return ;
        }
        let mut peers: Vec<MemberPlace> = Vec::new();
        push_copies(&mut peers, &self.peers);
        assert(peers@ =~= self.peers@);
        let rules = CodingRules::Direct { sector_size: self.sector_size };
        let revision = CodedRevision { guild_id: self.guild_id, revision_id };
        match SectorCoding::new(peers, revision, sectors, rules) {
            Some(coding) => {
                self.coding = Some(coding);
                self.settle_coding();
            },
            None => {
                self.fail(CommitError::SectorCount);
            },
        }
    }

    fn take_coding(&mut self, event: CodingEvent)
        requires
            old(self)@.wf(),
            old(self)@.stage is Coding,
        ensures
            final(self)@ == old(self)@.after_coding(event),
            final(self)@.wf(),
    {
        if let Some(coding) = &mut self.coding {
            coding.take(event);
        }
        self.settle_coding();
    }

    fn go_to_record(&mut self, hash: Id32, at: usize)
        requires
            at <= old(self)@.records.len(),
        ensures
            final(self)@ == (NetworkModel {
                stage: old(self)@.record_stage(hash, at as int),
                ..old(self)@
            }),
    {
        if at < self.records.len() {
            self.stage = NetworkStage::Record(hash, at);
        } else {
            self.stage = NetworkStage::Done(hash);
        }
    }

    /// Takes what came of the last action.
    pub fn take(&mut self, event: NetworkEvent)
        requires
            old(self)@.wf(),
        ensures
            final(self)@ == old(self)@.after(event@),
            final(self)@.wf(),
    {
        match (self.stage, event) {
            (NetworkStage::Failed(_), _) => {},
            (NetworkStage::Done(_), _) => {},
            (_, NetworkEvent::Failed) => {
                self.fail(CommitError::Outside);
            },
            (NetworkStage::Profiles, NetworkEvent::Profile { signer, node, failure_domain }) => {
                self.take_profile(signer, node, failure_domain);
            },
            (
                NetworkStage::Prepare,
                NetworkEvent::Prepared { signature_valid, owner, revision_id, sectors },
            ) => {
                self.take_revision(signature_valid, owner, revision_id, sectors);
            },
            (NetworkStage::Coding, NetworkEvent::Coding(event)) => {
                self.take_coding(event);
            },
            (NetworkStage::Build, NetworkEvent::Built) => {
                self.signers = Vec::new();
                self.stage = NetworkStage::Signing;
            },
            (NetworkStage::Signing, NetworkEvent::Signed(signer)) => {
                self.signers.push(signer);
                if self.signers.len() == BACKUP_PEERS {
                    self.stage = NetworkStage::Assemble;
                }
            },
            (NetworkStage::Assemble, NetworkEvent::Assembled(hash)) => {
                self.stage = NetworkStage::Storing(hash, 0);
            },
            (NetworkStage::Storing(hash, at), NetworkEvent::Stored) => {
                if at + 1 < BACKUP_PEERS {
                    self.stage = NetworkStage::Storing(hash, at + 1);
                } else {
                    self.go_to_record(hash, 0);
                }
            },
            (NetworkStage::Record(hash, at), NetworkEvent::Record) => {
                self.stage = NetworkStage::Publish(hash, at);
            },
            (NetworkStage::Publish(hash, at), NetworkEvent::Published) => {
                assert(at < self.records.len());
                self.go_to_record(hash, at + 1);
            },
            _ => {
                self.fail(CommitError::OutOfOrder);
            },
        }
    }
}

/// A commit is done only once its sectors are coded, all five peers have signed
/// and kept the state, and the last record was published; and a commit that is
/// done or has failed stays so.
pub proof fn a_done_commit_is_kept(commit: NetworkModel, event: NetworkEventModel)
    requires
        commit.wf(),
    ensures
        commit.stage is Done ==> commit.coding->0.done() && commit.signers.len() == BACKUP_PEERS,
        commit.after(event).kept() && !commit.kept() ==> {
            &&& event is Stored
            &&& commit.stage matches NetworkStage::Storing(_, at) && at == BACKUP_PEERS - 1
        },
        commit.after(event).stage is Done && commit.kept() && !(commit.stage is Done) ==> {
            &&& event is Published
            &&& commit.stage matches NetworkStage::Publish(_, at) && at == commit.records.len() - 1
        },
        commit.stage is Done || commit.stage is Failed ==> commit.after(event) == commit,
{
}

/// The records that a commit has its peers build are about the state that it
/// made: a peer that keeps that state carries the request out, and what it
/// builds counts for the member that it is about.
pub proof fn requested_records_count(commit: NetworkModel, state: KeptState, publisher: Id32)
    requires
        commit.stage is Record,
        state.guild_id == commit.guild_id,
        state.generation == FIRST_GENERATION,
        state.names_subject,
    ensures
        commit.next() matches NetworkActionModel::BuildRecord { request, .. } && {
            &&& execution_step(DirectRequest::BuildRecoveryRecord(request), Some(state))
                is Perform
            &&& record_counts(built_record(request, publisher), request.subject)
        },
{
}

/// A commit whose peers are known has each of the five build a record about each
/// of the other four: twenty records, none of them twice.
pub proof fn everyone_speaks_for_everyone_else(commit: NetworkModel)
    requires
        commit.wf(),
        commit.ordered(),
    ensures
        commit.records.len() == BACKUP_PEERS * (BACKUP_PEERS - 1),
        all_unique(commit.records),
        forall|pair: RecordPair| #[trigger]
            commit.records.contains(pair) <==> commit.nodes.contains(pair.subject)
                && commit.nodes.contains(pair.peer) && pair.subject != pair.peer,
{
    let nodes = commit.nodes;
    let peers = nodes_in(commit.peers);
    let members = nodes_in(commit.members);
    crate::commit::lemma_first_place_in_range(nodes, commit.coordinator);
    crate::commit::everyone_has_a_place(nodes, first_place(nodes, commit.coordinator)->0);
    crate::commit::everyone_has_a_place_by_identity(nodes);
    lemma_everyone_is_named(nodes, commit.peers);
    lemma_everyone_is_named(nodes, commit.members);
    assert forall|node: Id32| #[trigger] nodes.contains(node) == peers.contains(node)
        && nodes.contains(node) == members.contains(node) by {
        assert(nodes.to_set().contains(node) == nodes.contains(node));
        assert(peers.to_set().contains(node) == peers.contains(node));
        assert(members.to_set().contains(node) == members.contains(node));
    }
    assert forall|i: int| 0 <= i < commit.members.len() implies peers.contains(
        (#[trigger] commit.members[i]).node,
    ) by {
        assert(members[i] == commit.members[i].node);
        assert(nodes.contains(members[i]));
    }
    lemma_record_pairs(commit.members, peers);
    assert forall|pair: RecordPair| #[trigger]
        commit.records.contains(pair) <==> nodes.contains(pair.subject) && nodes.contains(pair.peer)
            && pair.subject != pair.peer by {
        assert(nodes.contains(pair.subject) == members.contains(pair.subject));
        assert(nodes.contains(pair.peer) == peers.contains(pair.peer));
        if commit.records.contains(pair) {
            let k = choose|k: int| 0 <= k < commit.records.len() && commit.records[k] == pair;
            assert(members.contains(commit.records[k].subject));
        }
    }
}

/// Once its profiles are there, a commit keeps its peers, and its records, to
/// the end.
pub proof fn the_peers_of_a_commit_stay(commit: NetworkModel, event: NetworkEventModel)
    requires
        commit.wf(),
        commit.ordered(),
    ensures
        ({
            let after = commit.after(event);
            &&& after.coordinator == commit.coordinator
            &&& after.guild_id == commit.guild_id
            &&& after.nodes == commit.nodes
            &&& after.failure_domains == commit.failure_domains
            &&& after.peers == commit.peers
            &&& after.members == commit.members
            &&& after.records == commit.records
            &&& after.follows_profiles()
        }),
{
}

/// Each of the five endpoints is asked for its profile, in order. A profile that
/// is not signed by the node that it names ends the commit. When all five are
/// there, no node and no failure domain may be there twice, and the coordinator
/// must be one of them; then it prepares its first revision.
pub proof fn five_profiles_make_up_a_guild(
    commit: NetworkModel,
    signer: Id32,
    node: Id32,
    failure_domain: Seq<char>,
)
    requires
        commit.wf(),
        commit.stage is Profiles,
    ensures
        ({
            let k = commit.nodes.len();
            let nodes = commit.nodes.push(node);
            let domains = commit.failure_domains.push(failure_domain);
            let after = commit.after(
                NetworkEventModel::Profile { signer, node, failure_domain },
            );
            let twice = (exists|i: int, j: int| 0 <= i < j < nodes.len() && nodes[i] == nodes[j])
                || (exists|i: int, j: int| 0 <= i < j < domains.len() && domains[i] == domains[j]);
            let led = exists|i: int|
                0 <= i < nodes.len() && #[trigger] nodes[i] == commit.coordinator;
            &&& commit.next() == (NetworkActionModel::AskProfile { endpoint: k })
            &&& signer != node ==> after.next() == NetworkActionModel::Failed(
                CommitError::WrongProfile,
            )
            &&& signer == node && k + 1 < 5 ==> after.next() == (NetworkActionModel::AskProfile {
                endpoint: k + 1,
            })
            &&& signer == node && k + 1 < 5 ==> after.nodes == nodes && after.failure_domains
                == domains
            &&& signer == node && k + 1 == 5 && twice ==> after.next()
                == NetworkActionModel::Failed(CommitError::DuplicatePeers)
            &&& signer == node && k + 1 == 5 && !twice && !led ==> after.next()
                == NetworkActionModel::Failed(CommitError::OwnerNotMember)
            &&& signer == node && k + 1 == 5 && !twice && led ==> after.next() == (
            NetworkActionModel::Prepare {
                owner: commit.coordinator,
                guild_id: commit.guild_id,
                sequence: 1,
            })
        }),
{
    let nodes = commit.nodes.push(node);
    let domains = commit.failure_domains.push(failure_domain);
    lemma_found_first(nodes, commit.coordinator);
    crate::commit::lemma_first_place_in_range(nodes, commit.coordinator);
    if all_unique(nodes) && first_place(nodes, commit.coordinator) is Some {
        let leader = first_place(nodes, commit.coordinator)->0;
        crate::commit::everyone_has_a_place(nodes, leader);
        assert(led_by(nodes, leader)[0].node == commit.coordinator);
    }
    let after = commit.after(NetworkEventModel::Profile { signer, node, failure_domain });
    assert(after == commit.with_profile(signer, node, failure_domain));
}

proof fn lemma_found_first(nodes: Seq<Id32>, node: Id32)
    ensures
        first_place(nodes, node) is Some <==> exists|i: int|
            0 <= i < nodes.len() && #[trigger] nodes[i] == node,
    decreases nodes.len(),
{
    if nodes.len() > 0 {
        let fewer = nodes.drop_last();
        lemma_found_first(fewer, node);
        if first_place(fewer, node) is Some {
            let i = choose|i: int| 0 <= i < fewer.len() && #[trigger] fewer[i] == node;
            assert(nodes[i] == node);
        }
        if nodes.last() == node {
            assert(nodes[nodes.len() - 1] == node);
        }
        if exists|i: int| 0 <= i < nodes.len() && #[trigger] nodes[i] == node {
            let i = choose|i: int| 0 <= i < nodes.len() && #[trigger] nodes[i] == node;
            if i < fewer.len() {
                assert(fewer[i] == node);
            }
        }
    }
}

/// What the coordinator prepared is coded only if it signed it itself and its
/// sectors can be numbered; the sectors are coded over the five peers, the
/// coordinator's own first. Without sectors the state is built at once.
pub proof fn the_coordinators_revision_is_coded(
    commit: NetworkModel,
    signature_valid: bool,
    owner: Id32,
    revision_id: u128,
    sectors: Seq<SectorRef>,
    event: CodingEvent,
)
    requires
        commit.wf(),
    ensures
        commit.stage is Prepare ==> {
            let after = commit.after(
                NetworkEventModel::Prepared { signature_valid, owner, revision_id, sectors },
            );
            &&& !signature_valid || owner != commit.coordinator ==> after.next()
                == NetworkActionModel::Failed(CommitError::WrongRevision)
            &&& signature_valid && owner == commit.coordinator && sectors.len()
                > 0x8000_0000_0000_0000 ==> after.next() == NetworkActionModel::Failed(
                CommitError::SectorCount,
            )
            &&& signature_valid && owner == commit.coordinator && 0 < sectors.len()
                <= 0x8000_0000_0000_0000 ==> {
                &&& after.coding->0.sectors == sectors
                &&& after.coding->0.peers == commit.peers
                &&& after.coding->0.rules == (CodingRules::Direct {
                    sector_size: commit.sector_size,
                })
                &&& after.coding->0.revision == (CodedRevision {
                    guild_id: commit.guild_id,
                    revision_id,
                })
                &&& after.next() == NetworkActionModel::Code(
                    CodingActionModel::LoadSector {
                        guild_id: commit.guild_id,
                        owner: commit.coordinator,
                        sector: sectors[0],
                    },
                )
            }
            &&& signature_valid && owner == commit.coordinator && sectors.len() == 0 ==> after.next()
                is Build
        },
        commit.stage is Coding ==> {
            let coding = commit.coding->0.after(event);
            let after = commit.after(NetworkEventModel::Coding(event));
            &&& after.coding == Some(coding)
            &&& coding.next() matches CodingActionModel::Failed(error) ==> after.next()
                == NetworkActionModel::Failed(CommitError::Coding(error))
            &&& coding.next() is Done ==> after.next() is Build
            &&& !(coding.next() is Failed || coding.next() is Done) ==> after.next()
                == NetworkActionModel::Code(coding.next())
        },
{
}

/// The first state of the guild is built of all groups and all five members, and
/// signed by the peers in their order; then each of them keeps it, in order, and
/// for each record in turn a peer builds it and it is published. The commit is
/// done with the guild, the state and its coordinator.
pub proof fn a_first_state_is_signed_and_kept_by_all(
    commit: NetworkModel,
    hash: Id32,
    signer: Id32,
)
    requires
        commit.wf(),
        commit.records.len() <= usize::MAX,
    ensures
        commit.next() is Build ==> {
            let action = commit.next();
            let after = commit.after(NetworkEventModel::Built);
            &&& action->Build_guild_id == commit.guild_id
            &&& action->generation == 1
            &&& action->members == commit.members
            &&& action->groups.len() == commit.coding->0.groups.len()
            &&& forall|k: int|
                0 <= k < commit.coding->0.groups.len() ==> crate::backup_job::lists(
                    action->groups,
                    (#[trigger] commit.coding->0.groups[k]).id,
                )
            &&& after.signers.len() == 0
            &&& after.next() == (NetworkActionModel::Sign { signer: commit.coordinator })
        },
        commit.stage is Signing ==> {
            let k = commit.signers.len() as int;
            let after = commit.after(NetworkEventModel::Signed(signer));
            &&& commit.next() == (NetworkActionModel::Sign { signer: commit.peers[k].node })
            &&& after.signers == commit.signers.push(signer)
            &&& if k + 1 < 5 {
                after.next() == (NetworkActionModel::Sign { signer: commit.peers[k + 1].node })
            } else {
                after.next() is Assemble
            }
        },
        commit.next() is Assemble ==> {
            let after = commit.after(NetworkEventModel::Assembled(hash));
            &&& commit.next()->signatures.len() == commit.signers.len()
            &&& forall|k: int|
                0 <= k < commit.signers.len() ==> crate::backup_job::lists(
                    commit.next()->signatures,
                    #[trigger] commit.signers[k],
                )
            &&& after.stage == NetworkStage::Storing(hash, 0)
            &&& after.next() == (NetworkActionModel::Store { peer: commit.coordinator })
        },
        commit.stage matches NetworkStage::Storing(kept, at) ==> {
            let after = commit.after(NetworkEventModel::Stored);
            &&& commit.next() == (NetworkActionModel::Store { peer: commit.peers[at as int].node })
            &&& if at + 1 < 5 {
                after.stage == NetworkStage::Storing(kept, (at + 1) as usize) && after.next() == (
                NetworkActionModel::Store { peer: commit.peers[at + 1].node })
            } else if commit.records.len() > 0 {
                after.stage == NetworkStage::Record(kept, 0)
            } else {
                after.stage == NetworkStage::Done(kept)
            }
        },
        commit.stage matches NetworkStage::Record(kept, at) ==> {
            let built = commit.after(NetworkEventModel::Record);
            let published = built.after(NetworkEventModel::Published);
            &&& commit.next() == (NetworkActionModel::BuildRecord {
                peer: commit.records[at as int].peer,
                request: RecordRequest {
                    subject: commit.records[at as int].subject,
                    guild_id: commit.guild_id,
                    checkpoint_hash: kept,
                    checkpoint_generation: 1,
                    expires_at_unix_seconds: u64::MAX,
                },
            })
            &&& built.next() is PublishRecord
            &&& published.stage == (if at + 1 < commit.records.len() {
                NetworkStage::Record(kept, (at + 1) as usize)
            } else {
                NetworkStage::Done(kept)
            })
        },
        commit.stage matches NetworkStage::Done(kept) ==> commit.next() == (
        NetworkActionModel::Done {
            guild_id: commit.guild_id,
            hash: kept,
            owner: commit.coordinator,
            coding_groups: commit.coding->0.groups.len(),
        }),
{
    if commit.coding is Some {
        crate::backup_job::lemma_all_sorted(group_ids(commit.coding->0));
        let ids = group_ids(commit.coding->0);
        let groups = sorted_by_key(places_but(ids, -1));
        assert forall|k: int|
            0 <= k < commit.coding->0.groups.len() implies crate::backup_job::lists(
            groups,
            (#[trigger] commit.coding->0.groups[k]).id,
        ) by {
            assert(ids[k] == commit.coding->0.groups[k].id);
        }
    }
    crate::backup_job::lemma_all_sorted(commit.signers);
}

/// What fails, and what was not asked for, ends a commit.
pub proof fn a_commit_takes_only_what_it_asked_for(
    commit: NetworkModel,
    event: NetworkEventModel,
)
    requires
        commit.wf(),
        !(commit.stage is Done || commit.stage is Failed),
    ensures
        event is Failed ==> commit.after(event).next() == NetworkActionModel::Failed(
            CommitError::Outside,
        ),
        !(event is Failed) && (match commit.next() {
            NetworkActionModel::AskProfile { .. } => !(event is Profile),
            NetworkActionModel::Prepare { .. } => !(event is Prepared),
            NetworkActionModel::Code(_) => !(event is Coding),
            NetworkActionModel::Build { .. } => !(event is Built),
            NetworkActionModel::Sign { .. } => !(event is Signed),
            NetworkActionModel::Assemble { .. } => !(event is Assembled),
            NetworkActionModel::Store { .. } => !(event is Stored),
            NetworkActionModel::BuildRecord { .. } => !(event is Record),
            NetworkActionModel::PublishRecord => !(event is Published),
            _ => false,
        }) ==> commit.after(event).next() == NetworkActionModel::Failed(CommitError::OutOfOrder),
{
}

} // verus!
