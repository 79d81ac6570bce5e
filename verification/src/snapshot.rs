//! Restoring a snapshot: sectors that the node lost are rebuilt first.

use crate::commit::SectorRef;
use crate::ids::Id32;
use crate::shards::{holds_sector, locate_sector, GroupRoles, ShardRole};
use vstd::prelude::*;

verus! {

/// Why a snapshot was not restored.
#[derive(Clone, Copy, Debug, PartialEq, Eq, Structural)]
pub enum SnapshotError {
    /// A sector is in none of the coding groups of the state.
    NotInCatalog,
    /// Something that was asked for was not had.
    Outside,
    /// What came was not what was asked for.
    OutOfOrder,
}

/// How far a restoration has come.
#[derive(Clone, Copy, Debug)]
pub enum SnapshotStage {
    /// Whether a restoration was interrupted is found out.
    Resume,
    Plan,
    /// Whether the node has this sector is found out.
    Probe(usize),
    /// This sector is rebuilt; where it stands in the catalog.
    Rebuild(usize, usize, usize),
    Install(usize),
    Restore,
    Done,
    Failed(SnapshotError),
}

/// What a restoration needs next.
#[derive(Clone, Copy, Debug)]
pub enum SnapshotAction {
    /// Finish a restoration that was interrupted, if there is one.
    Resume,
    /// Read which sectors are needed, and the catalog of the state.
    Plan,
    /// Find out whether the node has a sector.
    Probe { sector: SectorRef },
    /// Rebuild a shard of a coding group.
    Rebuild { group: usize, index: usize },
    Install { sector: SectorRef },
    Restore,
    Done,
    Failed(SnapshotError),
}

/// What came of an action.
#[derive(Debug)]
pub enum SnapshotEvent {
    /// Whether an interrupted restoration was finished.
    Resumed(bool),
    Planned { sectors: Vec<SectorRef>, groups: Vec<GroupRoles> },
    /// What the node has of a sector: how long it is, and its root.
    Probed(Option<(usize, Id32)>),
    Rebuilt,
    Installed,
    Restored,
    Failed,
}

/// What came of an action, as a plain value.
pub enum SnapshotEventModel {
    Resumed(bool),
    Planned { sectors: Seq<SectorRef>, groups: Seq<GroupRoles> },
    Probed(Option<(usize, Id32)>),
    Rebuilt,
    Installed,
    Restored,
    Failed,
}

impl SnapshotEvent {
    pub open spec fn view(&self) -> SnapshotEventModel {
        match *self {
            SnapshotEvent::Resumed(finished) => SnapshotEventModel::Resumed(finished),
            SnapshotEvent::Planned { sectors, groups } => SnapshotEventModel::Planned {
                sectors: sectors@,
                groups: groups@,
            },
            SnapshotEvent::Probed(sector) => SnapshotEventModel::Probed(sector),
            SnapshotEvent::Rebuilt => SnapshotEventModel::Rebuilt,
            SnapshotEvent::Installed => SnapshotEventModel::Installed,
            SnapshotEvent::Restored => SnapshotEventModel::Restored,
            SnapshotEvent::Failed => SnapshotEventModel::Failed,
        }
    }
}

/// The restoration of a snapshot.
#[derive(Debug)]
pub struct SnapshotRestore {
    sector_size: usize,
    sectors: Vec<SectorRef>,
    groups: Vec<GroupRoles>,
    stage: SnapshotStage,
}

/// The restoration of a snapshot, for contracts.
#[verifier::ext_equal]
pub struct SnapshotModel {
    pub sector_size: usize,
    pub sectors: Seq<SectorRef>,
    pub groups: Seq<GroupRoles>,
    pub stage: SnapshotStage,
}

/// A sector stands at a place of the catalog.
pub open spec fn stands_at(
    groups: Seq<GroupRoles>,
    sector: SectorRef,
    group: int,
    index: int,
) -> bool {
    &&& 0 <= group < groups.len()
    &&& 0 <= index < groups[group].roles@.len()
    &&& holds_sector(groups[group].roles@[index], sector.id, sector.root)
}

/// Nowhere before a place of the catalog stands a sector.
pub open spec fn stands_nowhere_before(
    groups: Seq<GroupRoles>,
    sector: SectorRef,
    group: int,
    index: int,
) -> bool {
    forall|g: int, i: int|
        (g < group || (g == group && i < index)) ==> !(#[trigger] stands_at(groups, sector, g, i))
}

/// The first place of the catalog at which a sector stands.
pub open spec fn sector_place(groups: Seq<GroupRoles>, sector: SectorRef) -> Option<(int, int)> {
    if exists|g: int, i: int| stands_at(groups, sector, g, i) {
        Some(
            choose|place: (int, int)| #[trigger]
                stands_at(groups, sector, place.0, place.1) && stands_nowhere_before(
                    groups,
                    sector,
                    place.0,
                    place.1,
                ),
        )
    } else {
        None
    }
}

impl SnapshotModel {
    pub open spec fn wf(self) -> bool {
        match self.stage {
            SnapshotStage::Probe(at) => at < self.sectors.len(),
            SnapshotStage::Rebuild(at, group, index) => at < self.sectors.len() && stands_at(
                self.groups,
                self.sectors[at as int],
                group as int,
                index as int,
            ),
            SnapshotStage::Install(at) => at < self.sectors.len(),
            _ => true,
        }
    }

    /// What is needed next.
    pub open spec fn next(self) -> SnapshotAction {
        match self.stage {
            SnapshotStage::Resume => SnapshotAction::Resume,
            SnapshotStage::Plan => SnapshotAction::Plan,
            SnapshotStage::Probe(at) => SnapshotAction::Probe { sector: self.sectors[at as int] },
            SnapshotStage::Rebuild(_, group, index) => SnapshotAction::Rebuild { group, index },
            SnapshotStage::Install(at) => SnapshotAction::Install {
                sector: self.sectors[at as int],
            },
            SnapshotStage::Restore => SnapshotAction::Restore,
            SnapshotStage::Done => SnapshotAction::Done,
            SnapshotStage::Failed(error) => SnapshotAction::Failed(error),
        }
    }

    /// The restoration at another stage.
    pub open spec fn at(self, stage: SnapshotStage) -> SnapshotModel {
        SnapshotModel { stage, ..self }
    }

    /// The stage at a sector, or behind the last.
    pub open spec fn sector_stage(self, at: int) -> SnapshotStage {
        if at < self.sectors.len() {
            SnapshotStage::Probe(at as usize)
        } else {
            SnapshotStage::Restore
        }
    }

    /// What the node has of a sector is that sector.
    pub open spec fn is_whole(self, at: int, had: Option<(usize, Id32)>) -> bool {
        had matches Some((length, root)) && length == self.sector_size && root
            == self.sectors[at].root
    }

    /// The restoration once it is known what the node has of a sector.
    pub open spec fn probed(self, at: usize, had: Option<(usize, Id32)>) -> SnapshotModel {
        if self.is_whole(at as int, had) {
            self.at(self.sector_stage(at + 1))
        } else {
            match sector_place(self.groups, self.sectors[at as int]) {
                Some((group, index)) => self.at(
                    SnapshotStage::Rebuild(at, group as usize, index as usize),
                ),
                None => self.at(SnapshotStage::Failed(SnapshotError::NotInCatalog)),
            }
        }
    }

    /// The restoration after an event.
    pub open spec fn after(self, event: SnapshotEventModel) -> SnapshotModel {
        match (self.stage, event) {
            (SnapshotStage::Done, _) => self,
            (SnapshotStage::Failed(_), _) => self,
            (_, SnapshotEventModel::Failed) => self.at(
                SnapshotStage::Failed(SnapshotError::Outside),
            ),
            (SnapshotStage::Resume, SnapshotEventModel::Resumed(true)) => self.at(
                SnapshotStage::Done,
            ),
            (SnapshotStage::Resume, SnapshotEventModel::Resumed(false)) => self.at(
                SnapshotStage::Plan,
            ),
            (SnapshotStage::Plan, SnapshotEventModel::Planned { sectors, groups }) => {
                let planned = SnapshotModel { sectors, groups, ..self };
                planned.at(planned.sector_stage(0))
            },
            (SnapshotStage::Probe(at), SnapshotEventModel::Probed(had)) => self.probed(at, had),
            (SnapshotStage::Rebuild(at, _, _), SnapshotEventModel::Rebuilt) => self.at(
                SnapshotStage::Install(at),
            ),
            (SnapshotStage::Install(at), SnapshotEventModel::Installed) => self.at(
                self.sector_stage(at + 1),
            ),
            (SnapshotStage::Restore, SnapshotEventModel::Restored) => self.at(SnapshotStage::Done),
            _ => self.at(SnapshotStage::Failed(SnapshotError::OutOfOrder)),
        }
    }
}

/// A restoration that has just begun.
pub open spec fn restoration_begun(sector_size: usize) -> SnapshotModel {
    SnapshotModel {
        sector_size,
        sectors: Seq::empty(),
        groups: Seq::empty(),
        stage: SnapshotStage::Resume,
    }
}

/// Begins to restore a snapshot.
pub fn restore_snapshot_with_p2p(sector_size: usize) -> (restore: SnapshotRestore)
    ensures
        restore@ == restoration_begun(sector_size),
        restore@.wf(),
{
    SnapshotRestore {
        sector_size,
        sectors: Vec::new(),
        groups: Vec::new(),
        stage: SnapshotStage::Resume,
    }
}

proof fn lemma_first_place_of_sector(
    groups: Seq<GroupRoles>,
    sector: SectorRef,
    group: int,
    index: int,
)
    requires
        stands_at(groups, sector, group, index),
        stands_nowhere_before(groups, sector, group, index),
    ensures
        sector_place(groups, sector) == Some((group, index)),
{
    let here = (group, index);
    assert(stands_at(groups, sector, here.0, here.1));
    let place = choose|place: (int, int)| #[trigger]
        stands_at(groups, sector, place.0, place.1) && stands_nowhere_before(
            groups,
            sector,
            place.0,
            place.1,
        );
    assert(stands_at(groups, sector, place.0, place.1));
    assert(stands_nowhere_before(groups, sector, place.0, place.1));
    assert(place.0 == group && place.1 == index);
}

fn find_sector(groups: &Vec<GroupRoles>, sector: &SectorRef) -> (place: Option<(usize, usize)>)
    ensures
        match place {
            Some((group, index)) => {
                &&& sector_place(groups@, *sector) == Some((group as int, index as int))
                &&& stands_at(groups@, *sector, group as int, index as int)
            },
            None => sector_place(groups@, *sector) is None,
        },
{
    let place = locate_sector(groups, &sector.id, &sector.root);
    proof {
        match place {
            Some((group, index)) => {
                assert forall|g: int, i: int|
                    (g < group || (g == group && i < index)) implies !(#[trigger] stands_at(
                    groups@,
                    *sector,
                    g,
                    i,
                )) by {
                    if stands_at(groups@, *sector, g, i) {
                        assert(holds_sector(groups@[g].roles@[i], sector.id, sector.root));
                    }
                }
                lemma_first_place_of_sector(groups@, *sector, group as int, index as int);
            },
            None => {
                assert forall|g: int, i: int| !(#[trigger] stands_at(groups@, *sector, g, i)) by {
                    if stands_at(groups@, *sector, g, i) {
                        assert(holds_sector(groups@[g].roles@[i], sector.id, sector.root));
                    }
                }
            },
        }
    }
    place
}

impl SnapshotRestore {
    pub closed spec fn view(&self) -> SnapshotModel {
        SnapshotModel {
            sector_size: self.sector_size,
            sectors: self.sectors@,
            groups: self.groups@,
            stage: self.stage,
        }
    }

    /// What is needed next.
    pub fn next(&self) -> (action: SnapshotAction)
        requires
            self@.wf(),
        ensures
            action == self@.next(),
    {
        match self.stage {
            SnapshotStage::Resume => SnapshotAction::Resume,
            SnapshotStage::Plan => SnapshotAction::Plan,
            SnapshotStage::Probe(at) => SnapshotAction::Probe { sector: self.sectors[at] },
            SnapshotStage::Rebuild(_, group, index) => SnapshotAction::Rebuild { group, index },
            SnapshotStage::Install(at) => SnapshotAction::Install { sector: self.sectors[at] },
            SnapshotStage::Restore => SnapshotAction::Restore,
            SnapshotStage::Done => SnapshotAction::Done,
            SnapshotStage::Failed(error) => SnapshotAction::Failed(error),
        }
    }

    fn stage_behind(&self, at: usize) -> (stage: SnapshotStage)
        requires
            at < self@.sectors.len(),
        ensures
            stage == self@.sector_stage(at + 1),
    {
        assert(at < self.sectors.len());
        if at + 1 < self.sectors.len() {
            SnapshotStage::Probe(at + 1)
        } else {
            SnapshotStage::Restore
        }
    }

    fn take_probe(&mut self, at: usize, had: Option<(usize, Id32)>)
        requires
            old(self)@.wf(),
            old(self)@.stage == SnapshotStage::Probe(at),
        ensures
            final(self)@ == old(self)@.probed(at, had),
            final(self)@.wf(),
    {
        let sector = self.sectors[at];
        let whole = match had {
            Some((length, root)) => length == self.sector_size && root.equals(&sector.root),
            None => false,
        };
        if whole {
            self.stage = self.stage_behind(at);
            return ;
        }
        match find_sector(&self.groups, &sector) {
            Some((group, index)) => {
                self.stage = SnapshotStage::Rebuild(at, group, index);
            },
            None => {
                self.stage = SnapshotStage::Failed(SnapshotError::NotInCatalog);
            },
        }
    }

    /// Takes what came of the last action.
    pub fn take(&mut self, event: SnapshotEvent)
        requires
            old(self)@.wf(),
        ensures
            final(self)@ == old(self)@.after(event@),
            final(self)@.wf(),
    {
        match (self.stage, event) {
            (SnapshotStage::Done, _) => {},
            (SnapshotStage::Failed(_), _) => {},
            (_, SnapshotEvent::Failed) => {
                self.stage = SnapshotStage::Failed(SnapshotError::Outside);
            },
            (SnapshotStage::Resume, SnapshotEvent::Resumed(true)) => {
                self.stage = SnapshotStage::Done;
            },
            (SnapshotStage::Resume, SnapshotEvent::Resumed(false)) => {
                self.stage = SnapshotStage::Plan;
            },
            (SnapshotStage::Plan, SnapshotEvent::Planned { sectors, groups }) => {
                self.stage = if sectors.len() > 0 {
                    SnapshotStage::Probe(0)
                } else {
                    SnapshotStage::Restore
                };
                self.sectors = sectors;
                self.groups = groups;
            },
            (SnapshotStage::Probe(at), SnapshotEvent::Probed(had)) => {
                self.take_probe(at, had);
            },
            (SnapshotStage::Rebuild(at, _, _), SnapshotEvent::Rebuilt) => {
                self.stage = SnapshotStage::Install(at);
            },
            (SnapshotStage::Install(at), SnapshotEvent::Installed) => {
                self.stage = self.stage_behind(at);
            },
            (SnapshotStage::Restore, SnapshotEvent::Restored) => {
                self.stage = SnapshotStage::Done;
            },
            _ => {
                self.stage = SnapshotStage::Failed(SnapshotError::OutOfOrder);
            },
        }
    }
}

/// A snapshot is restored only once every one of its sectors was found whole or
/// was put in place: no sector is passed over otherwise.
pub proof fn no_sector_is_passed_over(restore: SnapshotModel, event: SnapshotEventModel, at: usize)
    requires
        restore.wf(),
        restore.sectors.len() <= usize::MAX,
        at < restore.sectors.len(),
        restore.stage == SnapshotStage::Probe(at) || restore.stage == SnapshotStage::Install(at)
            || (restore.stage matches SnapshotStage::Rebuild(place, _, _) && place == at),
    ensures
        match restore.after(event).stage {
            SnapshotStage::Probe(later) => later == at + 1 && (restore.stage is Install || (
            event matches SnapshotEventModel::Probed(had) && restore.is_whole(at as int, had))),
            SnapshotStage::Restore => at + 1 == restore.sectors.len() && (restore.stage is Install
                || (event matches SnapshotEventModel::Probed(had) && restore.is_whole(
                at as int,
                had,
            ))),
            SnapshotStage::Done => false,
            _ => true,
        },
{
}

/// A part of a coding group is this sector.
pub open spec fn is_sector(role: ShardRole, sector: SectorRef) -> bool {
    role matches ShardRole::Information { sector_id, root, .. } && sector_id == sector.id && root
        == sector.root
}

/// A restoration asks first whether one was interrupted. Where one was finished
/// there is nothing left to do; else the sectors of the snapshot and the catalog
/// are read, and the first sector is looked at. A snapshot without sectors is
/// restored at once.
pub proof fn a_restoration_begins_with_its_plan(
    sector_size: usize,
    sectors: Seq<SectorRef>,
    groups: Seq<GroupRoles>,
)
    ensures
        ({
            let begun = restoration_begun(sector_size);
            let finished = begun.after(SnapshotEventModel::Resumed(true));
            let fresh = begun.after(SnapshotEventModel::Resumed(false));
            let planned = fresh.after(SnapshotEventModel::Planned { sectors, groups });
            &&& begun.next() is Resume
            &&& finished.next() is Done
            &&& fresh.next() is Plan
            &&& planned.sectors == sectors && planned.groups == groups && planned.sector_size
                == sector_size
            &&& if sectors.len() == 0 {
                planned.next() is Restore
            } else {
                planned.stage == SnapshotStage::Probe(0) && planned.next() == (
                SnapshotAction::Probe { sector: sectors[0] })
            }
        }),
{
}

/// Each sector is looked at in its turn. One that the node has whole, of the
/// right length and with its own root, needs nothing. Any other is rebuilt from
/// the first part of the catalog that is this very sector, and only then put in
/// place; where there is no such part, the restoration fails. Then the next
/// sector is looked at, and after the last one the snapshot is restored.
pub proof fn each_sector_is_looked_at_rebuilt_and_installed(
    restore: SnapshotModel,
    at: usize,
    had: Option<(usize, Id32)>,
)
    requires
        restore.wf(),
        restore.stage == SnapshotStage::Probe(at),
        restore.sectors.len() <= usize::MAX,
        restore.groups.len() <= usize::MAX,
        forall|g: int|
            0 <= g < restore.groups.len() ==> (#[trigger] restore.groups[g]).roles@.len()
                <= usize::MAX,
    ensures
        ({
            let sector = restore.sectors[at as int];
            let answered = restore.after(SnapshotEventModel::Probed(had));
            let rebuilt = answered.after(SnapshotEventModel::Rebuilt);
            let installed = rebuilt.after(SnapshotEventModel::Installed);
            let following = |next: SnapshotModel|
                {
                    &&& next.sectors == restore.sectors
                    &&& next.groups == restore.groups
                    &&& next.sector_size == restore.sector_size
                    &&& if at + 1 < restore.sectors.len() {
                        next.stage == SnapshotStage::Probe((at + 1) as usize) && next.next() == (
                        SnapshotAction::Probe { sector: restore.sectors[at + 1] })
                    } else {
                        next.next() is Restore
                    }
                };
            let in_catalog = exists|g: int, i: int|
                0 <= g < restore.groups.len() && 0 <= i < restore.groups[g].roles@.len()
                    && is_sector(#[trigger] restore.groups[g].roles@[i], sector);
            &&& restore.next() == (SnapshotAction::Probe { sector })
            &&& if had == Some((restore.sector_size, sector.root)) {
                following(answered)
            } else if !in_catalog {
                answered.next() == SnapshotAction::Failed(SnapshotError::NotInCatalog)
            } else {
                &&& answered.next() matches SnapshotAction::Rebuild { group, index } && {
                    &&& group < restore.groups.len()
                    &&& index < restore.groups[group as int].roles@.len()
                    &&& is_sector(restore.groups[group as int].roles@[index as int], sector)
                    &&& forall|g: int, i: int|
                        0 <= g < restore.groups.len() && 0 <= i < restore.groups[g].roles@.len()
                            && is_sector(#[trigger] restore.groups[g].roles@[i], sector) ==> group
                            < g || (group == g && index <= i)
                }
                &&& rebuilt.next() == (SnapshotAction::Install { sector })
                &&& following(installed)
            }
        }),
{
    let sector = restore.sectors[at as int];
    let groups = restore.groups;
    assert forall|g: int, i: int|
        0 <= g < groups.len() && 0 <= i < groups[g].roles@.len() implies is_sector(
        #[trigger] groups[g].roles@[i],
        sector,
    ) == stands_at(groups, sector, g, i) by {}
    if exists|g: int, i: int| stands_at(groups, sector, g, i) {
        let (g, i) = choose|g: int, i: int| stands_at(groups, sector, g, i);
        let (a, b) = lemma_first_standing(groups, sector, g, i);
        lemma_first_place_of_sector(groups, sector, a, b);
        assert(is_sector(groups[a].roles@[b], sector));
        assert forall|x: int, y: int|
            0 <= x < groups.len() && 0 <= y < groups[x].roles@.len() && is_sector(
                #[trigger] groups[x].roles@[y],
                sector,
            ) implies a < x || (a == x && b <= y) by {
            assert(stands_at(groups, sector, x, y));
        }
    } else {
        assert(forall|g: int, i: int|
            0 <= g < groups.len() && 0 <= i < groups[g].roles@.len() ==> !is_sector(
                #[trigger] groups[g].roles@[i],
                sector,
            ));
    }
}

/// Where a sector stands somewhere, it stands somewhere first.
proof fn lemma_first_standing(
    groups: Seq<GroupRoles>,
    sector: SectorRef,
    group: int,
    index: int,
) -> (place: (int, int))
    requires
        stands_at(groups, sector, group, index),
    ensures
        stands_at(groups, sector, place.0, place.1),
        stands_nowhere_before(groups, sector, place.0, place.1),
    decreases group, index,
{
    if stands_nowhere_before(groups, sector, group, index) {
        (group, index)
    } else {
        let (g, i) = choose|g: int, i: int|
            (g < group || (g == group && i < index)) && #[trigger] stands_at(groups, sector, g, i);
        lemma_first_standing(groups, sector, g, i)
    }
}

/// A sector is put in place only directly after it was itself rebuilt, and a
/// snapshot is done only once it was restored; what fails, and what was not asked
/// for, ends the restoration for good.
pub proof fn only_rebuilt_sectors_are_installed(
    restore: SnapshotModel,
    event: SnapshotEventModel,
)
    requires
        restore.wf(),
        restore.sectors.len() <= usize::MAX,
    ensures
        restore.after(event).stage matches SnapshotStage::Install(at) ==> (restore.stage
            != restore.after(event).stage ==> {
            &&& restore.stage matches SnapshotStage::Rebuild(rebuilt, _, _) && rebuilt == at
            &&& event is Rebuilt
        }),
        restore.next() is Install && event is Installed ==> !(restore.after(event).next() is Install)
            && !(restore.after(event).next() is Rebuild),
        restore.next() is Restore && event is Restored ==> restore.after(event).next() is Done,
        restore.after(event).next() is Done && !(restore.next() is Done) ==> restore.next() is Restore
            && event is Restored || restore.next() is Resume && event
            == SnapshotEventModel::Resumed(true),
        restore.next() is Done || restore.next() is Failed ==> restore.after(event) == restore,
        !(restore.next() is Done || restore.next() is Failed) && event is Failed ==> restore.after(
            event,
        ).next() == SnapshotAction::Failed(SnapshotError::Outside),
        !(event is Failed) && (match restore.next() {
            SnapshotAction::Resume => !(event is Resumed),
            SnapshotAction::Plan => !(event is Planned),
            SnapshotAction::Probe { .. } => !(event is Probed),
            SnapshotAction::Rebuild { .. } => !(event is Rebuilt),
            SnapshotAction::Install { .. } => !(event is Installed),
            SnapshotAction::Restore => !(event is Restored),
            _ => false,
        }) ==> restore.after(event).next() == SnapshotAction::Failed(SnapshotError::OutOfOrder),
{
}

} // verus!
