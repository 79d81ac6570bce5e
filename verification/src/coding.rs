//! Coding the sectors of a revision over five peers, one group after another.

use crate::commit::{
    acknowledgement_matches, acknowledges, coding_roles, filler_ordinals, group_roles, MemberPlace,
    SectorRef, StorageAcknowledgement, StorageRequest, BACKUP_PEERS, MAX_NUMBERED_SECTORS,
};
use crate::ids::Id32;
use crate::shards::ShardRole;
use vstd::prelude::*;

verus! {

/// Why the sectors of a revision were not coded.
#[derive(Clone, Copy, Debug, PartialEq, Eq, Structural)]
pub enum CodingError {
    /// The owner's sector is not the one that its revision names.
    WrongSector,
    /// A helper's filler is not the one that the helper names.
    WrongFiller,
    /// A holder acknowledged something else than it was asked to keep.
    WrongAcknowledgement,
    /// Something that was asked for was not had.
    Outside,
    /// What came was not what was asked for.
    OutOfOrder,
}

/// How what the peers hand over is checked.
#[derive(Clone, Copy, Debug)]
pub enum CodingRules {
    /// Over direct connections every filler has this size and the root that its
    /// helper names.
    Direct { sector_size: usize },
    /// In a guild every sector of the owner has this size, and the holders
    /// acknowledge what they keep.
    Guild { sector_size: usize },
}

impl CodingRules {
    /// The size of a sector, and so of every shard.
    pub open spec fn size(self) -> usize {
        match self {
            CodingRules::Direct { sector_size } => sector_size,
            CodingRules::Guild { sector_size } => sector_size,
        }
    }

    fn sector_size(&self) -> (size: usize)
        ensures
            size == self.size(),
    {
        match self {
            CodingRules::Direct { sector_size } => *sector_size,
            CodingRules::Guild { sector_size } => *sector_size,
        }
    }
}

/// The revision whose sectors are coded, and its guild.
#[derive(Clone, Copy, Debug)]
pub struct CodedRevision {
    pub guild_id: Id32,
    pub revision_id: u128,
}

/// How far the coding of one sector has come.
#[derive(Clone, Copy, Debug)]
pub enum CodingStage {
    Sector,
    HelperA,
    HelperB { a: SectorRef },
    Encode { a: SectorRef, b: SectorRef },
    Identify { a: SectorRef, b: SectorRef, parity: (Id32, Id32) },
    PublishA { a: SectorRef, b: SectorRef, parity: (Id32, Id32), group: Id32 },
    PublishB { a: SectorRef, b: SectorRef, parity: (Id32, Id32), group: Id32 },
    Failed(CodingError),
}

/// A group whose parity both of its holders keep.
#[derive(Clone, Copy, Debug)]
pub struct CodedGroup {
    pub id: Id32,
    /// The owner's sector and the fillers of the two helpers.
    pub sectors: (SectorRef, SectorRef, SectorRef),
    pub parity: (Id32, Id32),
}

/// What the coding needs next.
#[derive(Debug)]
pub enum CodingAction {
    LoadSector { guild_id: Id32, owner: Id32, sector: SectorRef },
    /// Have a helper put a filler of its own beside a sector of the revision.
    EnsureFiller { helper: Id32, revision: CodedRevision, ordinal: u64 },
    /// Compute the parity of the owner's sector and the two fillers.
    Encode,
    /// Compute the identity of a group of the guild with these parts and shards
    /// of this size.
    Identify { guild_id: Id32, shard_size: usize, roles: Vec<ShardRole> },
    PublishParity { holder: Id32, guild_id: Id32, group: Id32, shard_index: u8, root: Id32 },
    Done,
    Failed(CodingError),
}

/// What the coding needs next, as a plain value.
pub enum CodingActionModel {
    LoadSector { guild_id: Id32, owner: Id32, sector: SectorRef },
    EnsureFiller { helper: Id32, revision: CodedRevision, ordinal: u64 },
    Encode,
    Identify { guild_id: Id32, shard_size: usize, roles: Seq<ShardRole> },
    PublishParity { holder: Id32, guild_id: Id32, group: Id32, shard_index: u8, root: Id32 },
    Done,
    Failed(CodingError),
}

impl CodingAction {
    pub open spec fn view(&self) -> CodingActionModel {
        match *self {
            CodingAction::LoadSector { guild_id, owner, sector } =>
                CodingActionModel::LoadSector { guild_id, owner, sector },
            CodingAction::EnsureFiller { helper, revision, ordinal } =>
                CodingActionModel::EnsureFiller { helper, revision, ordinal },
            CodingAction::Encode => CodingActionModel::Encode,
            CodingAction::Identify { guild_id, shard_size, roles } => CodingActionModel::Identify {
                guild_id,
                shard_size,
                roles: roles@,
            },
            CodingAction::PublishParity { holder, guild_id, group, shard_index, root } =>
                CodingActionModel::PublishParity { holder, guild_id, group, shard_index, root },
            CodingAction::Done => CodingActionModel::Done,
            CodingAction::Failed(error) => CodingActionModel::Failed(error),
        }
    }
}

/// What came of an action.
#[derive(Clone, Copy, Debug)]
pub enum CodingEvent {
    /// The owner's sector came: how long it is, and its root.
    Sector { length: usize, root: Id32 },
    /// A helper has put its filler in place: how it names it, how long it is,
    /// and its root.
    Filler { reference: SectorRef, length: usize, root: Id32 },
    /// The roots of the two parity shards.
    Encoded { parity: (Id32, Id32) },
    Identified(Id32),
    /// A holder says that it keeps its parity shard.
    Stored,
    /// A holder acknowledges, under the number of the operation, what it keeps.
    Acknowledged { operation_id: u128, acknowledgement: StorageAcknowledgement },
    Failed,
}

/// The coding of the sectors of a revision over five peers.
#[derive(Debug)]
pub struct SectorCoding {
    peers: Vec<MemberPlace>,
    revision: CodedRevision,
    sectors: Vec<SectorRef>,
    rules: CodingRules,
    groups: Vec<CodedGroup>,
    stage: CodingStage,
}

/// The coding of the sectors of a revision, for contracts.
#[verifier::ext_equal]
pub struct CodingModel {
    pub peers: Seq<MemberPlace>,
    pub revision: CodedRevision,
    pub sectors: Seq<SectorRef>,
    pub rules: CodingRules,
    pub groups: Seq<CodedGroup>,
    pub stage: CodingStage,
}

impl CodingModel {
    /// There are five peers, and a group for each sector that was coded.
    pub open spec fn wf(self) -> bool {
        &&& self.peers.len() == BACKUP_PEERS
        &&& self.sectors.len() <= MAX_NUMBERED_SECTORS
        &&& self.groups.len() <= self.sectors.len()
        &&& !(self.stage is Sector || self.stage is Failed) ==> self.groups.len()
            < self.sectors.len()
    }

    /// The sector that is coded now.
    pub open spec fn sector(self) -> SectorRef {
        self.sectors[self.groups.len() as int]
    }

    /// Every sector is coded.
    pub open spec fn done(self) -> bool {
        self.stage is Sector && self.groups.len() == self.sectors.len()
    }

    /// What is needed next.
    pub open spec fn next(self) -> CodingActionModel {
        let ordinal = self.groups.len();
        match self.stage {
            CodingStage::Sector => if self.done() {
                CodingActionModel::Done
            } else {
                CodingActionModel::LoadSector {
                    guild_id: self.revision.guild_id,
                    owner: self.peers[0].node,
                    sector: self.sector(),
                }
            },
            CodingStage::HelperA => CodingActionModel::EnsureFiller {
                helper: self.peers[1].node,
                revision: self.revision,
                ordinal: (ordinal * 2) as u64,
            },
            CodingStage::HelperB { .. } => CodingActionModel::EnsureFiller {
                helper: self.peers[2].node,
                revision: self.revision,
                ordinal: (ordinal * 2 + 1) as u64,
            },
            CodingStage::Encode { .. } => CodingActionModel::Encode,
            CodingStage::Identify { a, b, parity } => CodingActionModel::Identify {
                guild_id: self.revision.guild_id,
                shard_size: self.rules.size(),
                roles: group_roles(self.peers, (self.sector(), a, b), parity),
            },
            CodingStage::PublishA { parity, group, .. } => CodingActionModel::PublishParity {
                holder: self.peers[3].node,
                guild_id: self.revision.guild_id,
                group,
                shard_index: 3,
                root: parity.0,
            },
            CodingStage::PublishB { parity, group, .. } => CodingActionModel::PublishParity {
                holder: self.peers[4].node,
                guild_id: self.revision.guild_id,
                group,
                shard_index: 4,
                root: parity.1,
            },
            CodingStage::Failed(error) => CodingActionModel::Failed(error),
        }
    }

    /// The owner's sector is the one that its revision names.
    pub open spec fn sector_fits(self, length: usize, root: Id32) -> bool {
        &&& (self.rules matches CodingRules::Guild { sector_size } ==> length == sector_size)
        &&& root == self.sector().root
    }

    /// A helper's filler is the one that the helper names.
    pub open spec fn filler_fits(self, reference: SectorRef, length: usize, root: Id32) -> bool {
        self.rules matches CodingRules::Direct { sector_size } ==> length == sector_size && root
            == reference.root
    }

    /// What the answer of the holder at a place is worth.
    pub open spec fn answer_of(
        self,
        event: CodingEvent,
        place: int,
        group: Id32,
        root: Id32,
    ) -> Result<(), CodingError> {
        match (self.rules, event) {
            (CodingRules::Direct { .. }, CodingEvent::Stored) => Ok(()),
            (
                CodingRules::Guild { .. },
                CodingEvent::Acknowledged { operation_id, acknowledgement },
            ) => if acknowledges(
                acknowledgement,
                StorageRequest {
                    peer: self.peers[place].node,
                    operation_id,
                    guild_id: self.revision.guild_id,
                    group_id: group,
                    shard_index: place as u8,
                    root,
                },
            ) {
                Ok(())
            } else {
                Err(CodingError::WrongAcknowledgement)
            },
            _ => Err(CodingError::OutOfOrder),
        }
    }

    /// The stage after an event.
    pub open spec fn stage_after(self, event: CodingEvent) -> CodingStage {
        match (self.stage, event) {
            (CodingStage::Failed(error), _) => CodingStage::Failed(error),
            (_, CodingEvent::Failed) => CodingStage::Failed(CodingError::Outside),
            (CodingStage::Sector, CodingEvent::Sector { length, root }) => if self.done() {
                CodingStage::Failed(CodingError::OutOfOrder)
            } else if self.sector_fits(length, root) {
                CodingStage::HelperA
            } else {
                CodingStage::Failed(CodingError::WrongSector)
            },
            (CodingStage::HelperA, CodingEvent::Filler { reference, length, root }) =>
                if self.filler_fits(reference, length, root) {
                CodingStage::HelperB { a: reference }
            } else {
                CodingStage::Failed(CodingError::WrongFiller)
            },
            (CodingStage::HelperB { a }, CodingEvent::Filler { reference, length, root }) =>
                if self.filler_fits(reference, length, root) {
                CodingStage::Encode { a, b: reference }
            } else {
                CodingStage::Failed(CodingError::WrongFiller)
            },
            (CodingStage::Encode { a, b }, CodingEvent::Encoded { parity }) =>
                CodingStage::Identify { a, b, parity },
            (CodingStage::Identify { a, b, parity }, CodingEvent::Identified(group)) =>
                CodingStage::PublishA { a, b, parity, group },
            (CodingStage::PublishA { a, b, parity, group }, _) => match self.answer_of(
                event,
                3,
                group,
                parity.0,
            ) {
                Ok(()) => CodingStage::PublishB { a, b, parity, group },
                Err(error) => CodingStage::Failed(error),
            },
            (CodingStage::PublishB { parity, group, .. }, _) => match self.answer_of(
                event,
                4,
                group,
                parity.1,
            ) {
                Ok(()) => CodingStage::Sector,
                Err(error) => CodingStage::Failed(error),
            },
            _ => CodingStage::Failed(CodingError::OutOfOrder),
        }
    }

    /// The groups after an event: another counts once both of its holders keep
    /// their parity.
    pub open spec fn groups_after(self, event: CodingEvent) -> Seq<CodedGroup> {
        match self.stage {
            CodingStage::PublishB { a, b, parity, group } => if self.answer_of(
                event,
                4,
                group,
                parity.1,
            ) is Ok {
                self.groups.push(CodedGroup { id: group, sectors: (self.sector(), a, b), parity })
            } else {
                self.groups
            },
            _ => self.groups,
        }
    }

    /// The coding after an event.
    pub open spec fn after(self, event: CodingEvent) -> CodingModel {
        CodingModel {
            groups: self.groups_after(event),
            stage: self.stage_after(event),
            ..self
        }
    }
}

/// The coding of sectors that has not begun.
pub open spec fn uncoded(
    peers: Seq<MemberPlace>,
    revision: CodedRevision,
    sectors: Seq<SectorRef>,
    rules: CodingRules,
) -> CodingModel {
    CodingModel {
        peers,
        revision,
        sectors,
        rules,
        groups: Seq::empty(),
        stage: CodingStage::Sector,
    }
}

impl SectorCoding {
    pub closed spec fn view(&self) -> CodingModel {
        CodingModel {
            peers: self.peers@,
            revision: self.revision,
            sectors: self.sectors@,
            rules: self.rules,
            groups: self.groups@,
            stage: self.stage,
        }
    }

    /// The coding of sectors over five peers; none where there are not five,
    /// or where the fillers of so many sectors could not be numbered.
    pub fn new(
        peers: Vec<MemberPlace>,
        revision: CodedRevision,
        sectors: Vec<SectorRef>,
        rules: CodingRules,
    ) -> (coding: Option<Self>)
        ensures
            coding is Some == (peers@.len() == BACKUP_PEERS && sectors@.len()
                <= MAX_NUMBERED_SECTORS),
            match coding {
                Some(coding) => coding@ == uncoded(peers@, revision, sectors@, rules) && coding@.wf(),
                None => true,
            },
    {
        if peers.len() != BACKUP_PEERS || sectors.len() as u64 > MAX_NUMBERED_SECTORS {
            return None;
        }
        Some(
            SectorCoding {
                peers,
                revision,
                sectors,
                rules,
                groups: Vec::new(),
                stage: CodingStage::Sector,
            },
        )
    }

    /// What is needed next.
    pub fn next(&self) -> (action: CodingAction)
        requires
            self@.wf(),
        ensures
            action@ == self@.next(),
    {
        let ordinal: usize = self.groups.len();
        match self.stage {
            CodingStage::Sector => if ordinal == self.sectors.len() {
                CodingAction::Done
            } else {
                CodingAction::LoadSector {
                    guild_id: self.revision.guild_id,
                    owner: self.peers[0].node,
                    sector: self.sectors[ordinal],
                }
            },
            CodingStage::HelperA => CodingAction::EnsureFiller {
                helper: self.peers[1].node,
                revision: self.revision,
                ordinal: filler_ordinals(ordinal as u64).0,
            },
            CodingStage::HelperB { .. } => CodingAction::EnsureFiller {
                helper: self.peers[2].node,
                revision: self.revision,
                ordinal: filler_ordinals(ordinal as u64).1,
            },
            CodingStage::Encode { .. } => CodingAction::Encode,
            CodingStage::Identify { a, b, parity } => CodingAction::Identify {
                guild_id: self.revision.guild_id,
                shard_size: self.rules.sector_size(),
                roles: coding_roles(&self.peers, (self.sectors[ordinal], a, b), parity),
            },
            CodingStage::PublishA { parity, group, .. } => CodingAction::PublishParity {
                holder: self.peers[3].node,
                guild_id: self.revision.guild_id,
                group,
                shard_index: 3,
                root: parity.0,
            },
            CodingStage::PublishB { parity, group, .. } => CodingAction::PublishParity {
                holder: self.peers[4].node,
                guild_id: self.revision.guild_id,
                group,
                shard_index: 4,
                root: parity.1,
            },
            CodingStage::Failed(error) => CodingAction::Failed(error),
        }
    }

    fn check_filler(&self, reference: &SectorRef, length: usize, root: &Id32) -> (fits: bool)
        ensures
            fits == self@.filler_fits(*reference, length, *root),
    {
        match self.rules {
            CodingRules::Direct { sector_size } => length == sector_size && root.equals(
                &reference.root,
            ),
            CodingRules::Guild { .. } => true,
        }
    }

    fn check_answer(&self, event: CodingEvent, place: usize, group: Id32, root: Id32) -> (result:
        Result<(), CodingError>)
        requires
            place < self@.peers.len(),
            place <= u8::MAX,
        ensures
            result == self@.answer_of(event, place as int, group, root),
    {
        match (self.rules, event) {
            (CodingRules::Direct { .. }, CodingEvent::Stored) => Ok(()),
            (
                CodingRules::Guild { .. },
                CodingEvent::Acknowledged { operation_id, acknowledgement },
            ) => {
                let request = StorageRequest {
                    peer: self.peers[place].node,
                    operation_id,
                    guild_id: self.revision.guild_id,
                    group_id: group,
                    shard_index: place as u8,
                    root,
                };
                if acknowledgement_matches(&acknowledgement, &request) {
                    Ok(())
                } else {
                    Err(CodingError::WrongAcknowledgement)
                }
            },
            _ => Err(CodingError::OutOfOrder),
        }
    }

    /// Takes what came of the last action.
    pub fn take(&mut self, event: CodingEvent)
        requires
            old(self)@.wf(),
        ensures
            final(self)@ == old(self)@.after(event),
            final(self)@.wf(),
    {
        let ordinal: usize = self.groups.len();
        let stage = match (self.stage, event) {
            (CodingStage::Failed(error), _) => CodingStage::Failed(error),
            (_, CodingEvent::Failed) => CodingStage::Failed(CodingError::Outside),
            (CodingStage::Sector, CodingEvent::Sector { length, root }) => {
                if ordinal == self.sectors.len() {
                    CodingStage::Failed(CodingError::OutOfOrder)
                } else {
                    let sized = match self.rules {
                        CodingRules::Direct { .. } => true,
                        CodingRules::Guild { sector_size } => length == sector_size,
                    };
                    if sized && root.equals(&self.sectors[ordinal].root) {
                        CodingStage::HelperA
                    } else {
                        CodingStage::Failed(CodingError::WrongSector)
                    }
                }
            },
            (CodingStage::HelperA, CodingEvent::Filler { reference, length, root }) => {
                if self.check_filler(&reference, length, &root) {
                    CodingStage::HelperB { a: reference }
                } else {
                    CodingStage::Failed(CodingError::WrongFiller)
                }
            },
            (CodingStage::HelperB { a }, CodingEvent::Filler { reference, length, root }) => {
                if self.check_filler(&reference, length, &root) {
                    CodingStage::Encode { a, b: reference }
                } else {
                    CodingStage::Failed(CodingError::WrongFiller)
                }
            },
            (CodingStage::Encode { a, b }, CodingEvent::Encoded { parity }) => {
                CodingStage::Identify { a, b, parity }
            },
            (CodingStage::Identify { a, b, parity }, CodingEvent::Identified(group)) => {
                CodingStage::PublishA { a, b, parity, group }
            },
            (CodingStage::PublishA { a, b, parity, group }, _) => {
                match self.check_answer(event, 3, group, parity.0) {
                    Ok(()) => CodingStage::PublishB { a, b, parity, group },
                    Err(error) => CodingStage::Failed(error),
                }
            },
            (CodingStage::PublishB { a, b, parity, group }, _) => {
                match self.check_answer(event, 4, group, parity.1) {
                    Ok(()) => {
                        let sectors = (self.sectors[ordinal], a, b);
                        self.groups.push(CodedGroup { id: group, sectors, parity });
                        CodingStage::Sector
                    },
                    Err(error) => CodingStage::Failed(error),
                }
            },
            _ => CodingStage::Failed(CodingError::OutOfOrder),
        };
        self.stage = stage;
    }

    /// The groups whose parity is kept.
    pub fn groups(&self) -> (groups: &Vec<CodedGroup>)
        ensures
            groups@ == self@.groups,
    {
        &self.groups
    }
}

/// A group counts only once both of its holders have said that they keep their
/// parity; until then, and after a failure, the groups stay as they are.
pub proof fn a_group_counts_once_it_is_kept(coding: CodingModel, event: CodingEvent)
    requires
        coding.wf(),
    ensures
        coding.groups.is_prefix_of(coding.after(event).groups),
        coding.after(event).groups != coding.groups ==> {
            &&& coding.stage matches CodingStage::PublishB { parity, group, .. }
            &&& coding.answer_of(event, 4, group, parity.1) is Ok
            &&& coding.after(event).groups.len() == coding.groups.len() + 1
        },
        coding.stage is Failed ==> coding.after(event) == coding,
        event is Failed ==> coding.after(event).stage is Failed,
{
    if coding.stage is Failed {
        assert(coding.after(event) =~= coding);
    }
}

/// The numbers under which helpers are asked for fillers never repeat: each
/// sector has its own two.
pub proof fn filler_numbers_are_apart(one: CodingModel, other: CodingModel)
    requires
        one.wf(),
        other.wf(),
        one.next() is EnsureFiller,
        other.next() is EnsureFiller,
        one.next()->ordinal == other.next()->ordinal,
    ensures
        one.groups.len() == other.groups.len(),
        one.stage is HelperA == other.stage is HelperA,
{
}

/// A holder's word that it keeps a parity shard: over direct connections that it
/// has stored it, in a guild a signed acknowledgement of just this shard.
pub open spec fn keeps_parity(
    rules: CodingRules,
    event: CodingEvent,
    holder: Id32,
    guild_id: Id32,
    group: Id32,
    shard_index: u8,
    root: Id32,
) -> bool {
    match event {
        CodingEvent::Stored => rules is Direct,
        CodingEvent::Acknowledged { operation_id, acknowledgement } => {
            &&& rules is Guild
            &&& acknowledgement.signature_valid
            &&& acknowledgement == (StorageAcknowledgement {
                signature_valid: true,
                signer: holder,
                holder,
                operation_id,
                guild_id,
                group_id: group,
                shard_index,
                root,
            })
        },
        _ => false,
    }
}

/// From a sector to its group. The owner's sector is loaded, each of the two
/// helpers is asked for a filler under a number of its own, the three are
/// encoded, and a group is identified that names for each of the five peers the
/// shard that it holds: the sector, the two fillers, and the two parity shards
/// with the very roots under which they are then handed to their holders. Once
/// both holders keep theirs, the group counts, and the next sector is loaded.
pub proof fn a_sector_is_spread_over_five_peers(
    coding: CodingModel,
    length: usize,
    a: SectorRef,
    b: SectorRef,
    first: (usize, Id32),
    second: (usize, Id32),
    parity: (Id32, Id32),
    group: Id32,
    third_keeps: CodingEvent,
    fourth_keeps: CodingEvent,
)
    requires
        coding.wf(),
        coding.next() is LoadSector,
        coding.rules matches CodingRules::Guild { sector_size } ==> length == sector_size,
        coding.rules matches CodingRules::Direct { sector_size } ==> {
            &&& first == (sector_size, a.root)
            &&& second == (sector_size, b.root)
        },
        keeps_parity(
            coding.rules,
            third_keeps,
            coding.peers[3].node,
            coding.revision.guild_id,
            group,
            3,
            parity.0,
        ),
        keeps_parity(
            coding.rules,
            fourth_keeps,
            coding.peers[4].node,
            coding.revision.guild_id,
            group,
            4,
            parity.1,
        ),
    ensures
        ({
            let k = coding.groups.len();
            let sector = coding.sectors[k as int];
            let guild_id = coding.revision.guild_id;
            let size = match coding.rules {
                CodingRules::Direct { sector_size } => sector_size,
                CodingRules::Guild { sector_size } => sector_size,
            };
            let owner = coding.peers[0].node;
            let helper_a = coding.peers[1].node;
            let helper_b = coding.peers[2].node;
            let holder_a = coding.peers[3].node;
            let holder_b = coding.peers[4].node;
            let loaded = coding.after(CodingEvent::Sector { length, root: sector.root });
            let one = loaded.after(
                CodingEvent::Filler { reference: a, length: first.0, root: first.1 },
            );
            let both = one.after(
                CodingEvent::Filler { reference: b, length: second.0, root: second.1 },
            );
            let encoded = both.after(CodingEvent::Encoded { parity });
            let named = encoded.after(CodingEvent::Identified(group));
            let half = named.after(third_keeps);
            let kept = half.after(fourth_keeps);
            &&& coding.next() == (CodingActionModel::LoadSector { guild_id, owner, sector })
            &&& loaded.next() == (CodingActionModel::EnsureFiller {
                helper: helper_a,
                revision: coding.revision,
                ordinal: (2 * k) as u64,
            })
            &&& one.next() == (CodingActionModel::EnsureFiller {
                helper: helper_b,
                revision: coding.revision,
                ordinal: (2 * k + 1) as u64,
            })
            &&& both.next() is Encode
            &&& encoded.next() == (CodingActionModel::Identify {
                guild_id,
                shard_size: size,
                roles: seq![
                    ShardRole::Information {
                        owner,
                        sector_id: sector.id,
                        root: sector.root,
                    },
                    ShardRole::Information { owner: helper_a, sector_id: a.id, root: a.root },
                    ShardRole::Information { owner: helper_b, sector_id: b.id, root: b.root },
                    ShardRole::Parity { holder: holder_a, row: 0, root: parity.0 },
                    ShardRole::Parity { holder: holder_b, row: 1, root: parity.1 },
                ],
            })
            &&& named.next() == (CodingActionModel::PublishParity {
                holder: holder_a,
                guild_id,
                group,
                shard_index: 3,
                root: parity.0,
            })
            &&& half.next() == (CodingActionModel::PublishParity {
                holder: holder_b,
                guild_id,
                group,
                shard_index: 4,
                root: parity.1,
            })
            &&& half.groups == coding.groups
            &&& kept == (CodingModel {
                groups: coding.groups.push(
                    CodedGroup { id: group, sectors: (sector, a, b), parity },
                ),
                ..coding
            })
            &&& kept.next() == (if k + 1 == coding.sectors.len() {
                CodingActionModel::Done
            } else {
                CodingActionModel::LoadSector {
                    guild_id,
                    owner,
                    sector: coding.sectors[(k + 1) as int],
                }
            })
        }),
{
    let sector = coding.sectors[coding.groups.len() as int];
    let loaded = coding.after(CodingEvent::Sector { length, root: sector.root });
    let one = loaded.after(CodingEvent::Filler { reference: a, length: first.0, root: first.1 });
    let both = one.after(CodingEvent::Filler { reference: b, length: second.0, root: second.1 });
    let encoded = both.after(CodingEvent::Encoded { parity });
    let named = encoded.after(CodingEvent::Identified(group));
    let half = named.after(third_keeps);
    let kept = half.after(fourth_keeps);
    assert(kept.stage == coding.stage);
    assert(kept =~= (CodingModel {
        groups: coding.groups.push(CodedGroup { id: group, sectors: (sector, a, b), parity }),
        ..coding
    }));
}

/// What is handed to the holders of parity is what the group names: the fourth
/// and the fifth part of a group that is identified have the holders, the rows
/// and the roots with which their shards are then published.
pub proof fn parity_is_published_as_it_was_named(
    coding: CodingModel,
    group: Id32,
    answer: CodingEvent,
)
    requires
        coding.wf(),
        coding.next() is Identify,
        coding.after(CodingEvent::Identified(group)).after(answer).next() is PublishParity,
    ensures
        ({
            let roles = coding.next()->roles;
            let named = coding.after(CodingEvent::Identified(group));
            let half = named.after(answer);
            &&& roles.len() == 5
            &&& named.next() matches CodingActionModel::PublishParity {
                holder,
                guild_id,
                group: published,
                shard_index,
                root,
            } && {
                &&& roles[3] == (ShardRole::Parity { holder, row: 0, root })
                &&& shard_index == 3
                &&& published == group
                &&& guild_id == coding.next()->Identify_guild_id
            }
            &&& half.next() matches CodingActionModel::PublishParity {
                holder,
                guild_id,
                group: published,
                shard_index,
                root,
            } && {
                &&& roles[4] == (ShardRole::Parity { holder, row: 1, root })
                &&& shard_index == 4
                &&& published == group
                &&& guild_id == coding.next()->Identify_guild_id
            }
        }),
{
}

/// What does not fit what was asked for ends the coding, with its own error and
/// without another group: a sector that is not the one of the revision, over
/// direct connections a filler that is not the one that its helper names, a word
/// of a holder for anything but its shard, and whatever was not asked for.
pub proof fn what_does_not_fit_is_not_coded(coding: CodingModel, event: CodingEvent)
    requires
        coding.wf(),
        !(coding.next() is Failed),
    ensures
        coding.after(event).next() matches CodingActionModel::Failed(error) ==> {
            &&& coding.after(event).groups == coding.groups
            &&& forall|other: CodingEvent|
                (#[trigger] coding.after(event).after(other)).next() == CodingActionModel::Failed(
                    error,
                )
        },
        event is Failed ==> coding.after(event).next() == CodingActionModel::Failed(
            CodingError::Outside,
        ),
        match coding.next() {
            CodingActionModel::LoadSector { sector, .. } => match event {
                CodingEvent::Sector { length, root } => {
                    let fits = root == sector.root && (coding.rules matches CodingRules::Guild {
                        sector_size,
                    } ==> length == sector_size);
                    &&& fits ==> coding.after(event).next() is EnsureFiller
                    &&& !fits ==> coding.after(event).next() == CodingActionModel::Failed(
                        CodingError::WrongSector,
                    )
                },
                CodingEvent::Failed => true,
                _ => coding.after(event).next() == CodingActionModel::Failed(
                    CodingError::OutOfOrder,
                ),
            },
            CodingActionModel::EnsureFiller { .. } => match event {
                CodingEvent::Filler { reference, length, root } => {
                    let fits = coding.rules matches CodingRules::Direct { sector_size } ==> length
                        == sector_size && root == reference.root;
                    &&& fits ==> coding.after(event).next() is EnsureFiller || coding.after(
                        event,
                    ).next() is Encode
                    &&& !fits ==> coding.after(event).next() == CodingActionModel::Failed(
                        CodingError::WrongFiller,
                    )
                },
                CodingEvent::Failed => true,
                _ => coding.after(event).next() == CodingActionModel::Failed(
                    CodingError::OutOfOrder,
                ),
            },
            CodingActionModel::Encode => event is Encoded || event is Failed || coding.after(
                event,
            ).next() == CodingActionModel::Failed(CodingError::OutOfOrder),
            CodingActionModel::Identify { .. } => event is Identified || event is Failed
                || coding.after(event).next() == CodingActionModel::Failed(CodingError::OutOfOrder),
            CodingActionModel::PublishParity { holder, guild_id, group, shard_index, root } => {
                &&& (keeps_parity(coding.rules, event, holder, guild_id, group, shard_index, root)
                    <==> !(coding.after(event).next() is Failed))
                &&& (coding.rules is Guild && event is Acknowledged && coding.after(
                    event,
                ).next() is Failed ==> coding.after(event).next() == CodingActionModel::Failed(
                    CodingError::WrongAcknowledgement,
                ))
            },
            CodingActionModel::Done => event is Failed || coding.after(event).next()
                == CodingActionModel::Failed(CodingError::OutOfOrder),
            CodingActionModel::Failed(_) => true,
        },
{
}

/// Coding begins with the first sector of its revision, with nothing kept yet;
/// without a sector there is nothing to do.
pub proof fn coding_begins_with_the_first_sector(
    peers: Seq<MemberPlace>,
    revision: CodedRevision,
    sectors: Seq<SectorRef>,
    rules: CodingRules,
)
    requires
        peers.len() == BACKUP_PEERS,
    ensures
        ({
            let coding = uncoded(peers, revision, sectors, rules);
            &&& coding.groups.len() == 0
            &&& coding.peers == peers && coding.sectors == sectors
            &&& coding.rules == rules && coding.revision == revision
            &&& coding.next() == (if sectors.len() == 0 {
                CodingActionModel::Done
            } else {
                CodingActionModel::LoadSector {
                    guild_id: revision.guild_id,
                    owner: peers[0].node,
                    sector: sectors[0],
                }
            })
        }),
{
}

} // verus!
