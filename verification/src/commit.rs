//! Committing a revision: who takes which part, and what the new state holds.

use crate::coding::CodingError;
use crate::ids::{sort_by_key, sorted_by_key, Id32, Keyed};
use crate::ordered::{big_endian, bytes_le};
use crate::recovery::RevisionFacts;
use crate::shards::ShardRole;
use vstd::prelude::*;

verus! {

/// How many members a guild has that can take a backup.
pub const BACKUP_PEERS: usize = 5;

/// A member and its place in a list.
#[derive(Clone, Copy, Debug)]
pub struct MemberPlace {
    pub node: Id32,
    pub place: usize,
}

impl Keyed for MemberPlace {
    open spec fn key(&self) -> Seq<u8> {
        self.node@
    }

    fn key_le(&self, other: &Self) -> (result: bool) {
        self.node.le(&other.node)
    }
}

/// The members of a list with their places, but for one.
pub open spec fn places_but(members: Seq<Id32>, but: int) -> Seq<MemberPlace>
    decreases members.len(),
{
    if members.len() == 0 {
        Seq::empty()
    } else {
        let before = places_but(members.drop_last(), but);
        let place = members.len() - 1;
        if place == but {
            before
        } else {
            before.push(MemberPlace { node: members.last(), place: place as usize })
        }
    }
}

/// The place of the first member that is a node.
pub open spec fn first_place(members: Seq<Id32>, node: Id32) -> Option<int>
    decreases members.len(),
{
    if members.len() == 0 {
        None
    } else {
        match first_place(members.drop_last(), node) {
            Some(place) => Some(place),
            None => if members.last() == node {
                Some(members.len() - 1)
            } else {
                None
            },
        }
    }
}

/// Members with one of them first and the others by identity.
pub open spec fn led_by(members: Seq<Id32>, leader: int) -> Seq<MemberPlace> {
    seq![MemberPlace { node: members[leader], place: leader as usize }] + sorted_by_key(
        places_but(members, leader),
    )
}

/// Why a backup cannot be committed.
#[derive(Clone, Copy, Debug, PartialEq, Eq, Structural)]
pub enum CommitError {
    /// The job is not for this coordinator of this guild.
    WrongCoordinator,
    OwnerNotMember,
    NotFivePeers,
    /// Identities or failure domains are not unique.
    DuplicatePeers,
    /// The revision is not the one that was submitted.
    WrongRevision,
    /// The revision has no sectors or too many.
    SectorCount,
    GenerationExhausted,
    InvalidCertificate,
    /// An endpoint of a peer is no address.
    InvalidEndpoint,
    /// The last state is not certified.
    InvalidPrevious,
    /// A profile is not signed by the member that it is of.
    WrongProfile,
    Coding(CodingError),
    /// Something that was asked for was not had.
    Outside,
    /// What came was not what was asked for.
    OutOfOrder,
}

/// The place of the first member that is a node.
pub fn place_of(members: &Vec<Id32>, node: &Id32) -> (place: Option<usize>)
    ensures
        (match place {
            Some(place) => Some(place as int),
            None => None,
        }) == first_place(members@, *node),
        place matches Some(place) ==> place < members@.len() && members@[place as int] == *node,
{
    let mut i: usize = 0;
    assert(members@.take(0) =~= Seq::empty());
    while i < members.len()
        invariant
            i <= members@.len(),
            first_place(members@.take(i as int), *node) is None,
        decreases members@.len() - i,
    {
        assert(members@.take(i + 1).drop_last() =~= members@.take(i as int));
        if members[i].equals(node) {
            proof {
                lemma_first_place_stays(members@, *node, i + 1);
            }
            return Some(i);
        }
        i += 1;
    }
    assert(members@.take(i as int) =~= members@);
    None
}

proof fn lemma_first_place_stays(members: Seq<Id32>, node: Id32, n: int)
    requires
        0 <= n <= members.len(),
        first_place(members.take(n), node) is Some,
    ensures
        first_place(members, node) == first_place(members.take(n), node),
    decreases members.len() - n,
{
    if n < members.len() {
        assert(members.take(n + 1).drop_last() =~= members.take(n));
        lemma_first_place_stays(members, node, n + 1);
    } else {
        assert(members.take(n) =~= members);
    }
}

pub(crate) proof fn lemma_first_place_in_range(members: Seq<Id32>, node: Id32)
    ensures
        first_place(members, node) matches Some(place) ==> 0 <= place < members.len()
            && members[place] == node,
    decreases members.len(),
{
    if members.len() > 0 {
        lemma_first_place_in_range(members.drop_last(), node);
    }
}

fn lead(members: &Vec<Id32>, leader: usize) -> (order: Vec<MemberPlace>)
    requires
        leader < members@.len(),
    ensures
        order@ == led_by(members@, leader as int),
{
    let mut rest: Vec<MemberPlace> = Vec::new();
    let mut i: usize = 0;
    assert(members@.take(0) =~= Seq::empty());
    while i < members.len()
        invariant
            i <= members@.len(),
            rest@ == places_but(members@.take(i as int), leader as int),
        decreases members@.len() - i,
    {
        assert(members@.take(i + 1).drop_last() =~= members@.take(i as int));
        if i != leader {
            rest.push(MemberPlace { node: members[i], place: i });
        }
        i += 1;
    }
    assert(members@.take(i as int) =~= members@);
    let mut sorted = sort_by_key(rest);
    let mut order: Vec<MemberPlace> = Vec::new();
    order.push(MemberPlace { node: members[leader], place: leader });
    order.append(&mut sorted);
    assert(order@ =~= led_by(members@, leader as int));
    order
}

/// The order in which the members of a guild take part in a backup: its owner
/// first, the others by identity.
pub fn order_backup_peers(members: &Vec<Id32>, owner: &Id32) -> (order: Result<
    Vec<MemberPlace>,
    CommitError,
>)
    ensures
        match order {
            Ok(order) => {
                &&& members@.len() == BACKUP_PEERS
                &&& first_place(members@, *owner) is Some
                &&& order@ == led_by(members@, first_place(members@, *owner)->0)
            },
            Err(error) => if first_place(members@, *owner) is None {
                error == CommitError::OwnerNotMember
            } else {
                error == CommitError::NotFivePeers && members@.len() != BACKUP_PEERS
            },
        },
{
    match place_of(members, owner) {
        Some(place) => {
            if members.len() != BACKUP_PEERS {
                return Err(CommitError::NotFivePeers);
            }
            Ok(lead(members, place))
        },
        None => Err(CommitError::OwnerNotMember),
    }
}

/// No two entries of a list are the same.
pub open spec fn all_unique<T>(list: Seq<T>) -> bool {
    forall|i: int, j: int| 0 <= i < j < list.len() ==> list[i] != list[j]
}

fn unique_ids(list: &Vec<Id32>) -> (result: bool)
    ensures
        result == all_unique(list@),
{
    let mut i: usize = 0;
    while i < list.len()
        invariant
            i <= list@.len(),
            forall|a: int, b: int| 0 <= a < b < i ==> list@[a] != list@[b],
        decreases list@.len() - i,
    {
        let mut j: usize = 0;
        while j < i
            invariant
                j <= i < list@.len(),
                forall|a: int| 0 <= a < j ==> list@[a] != list@[i as int],
            decreases i - j,
        {
            if list[j].equals(&list[i]) {
                assert(list@[j as int] == list@[i as int]);
                return false;
            }
            j += 1;
        }
        i += 1;
    }
    true
}

fn unique_texts(list: &Vec<String>) -> (result: bool)
    ensures
        result == all_unique(crate::endpoints::texts(list@)),
{
    let ghost all = crate::endpoints::texts(list@);
    let mut i: usize = 0;
    while i < list.len()
        invariant
            i <= list@.len(),
            all == crate::endpoints::texts(list@),
            forall|a: int, b: int| 0 <= a < b < i ==> all[a] != all[b],
        decreases list@.len() - i,
    {
        let mut j: usize = 0;
        while j < i
            invariant
                j <= i < list@.len(),
                all == crate::endpoints::texts(list@),
                forall|a: int| 0 <= a < j ==> all[a] != all[i as int],
            decreases i - j,
        {
            assert(all[j as int] == list@[j as int]@);
            assert(all[i as int] == list@[i as int]@);
            if list[j] == list[i] {
                assert(all[j as int] == all[i as int]);
                return false;
            }
            j += 1;
        }
        i += 1;
    }
    true
}

/// The order in which five peers at direct endpoints take part in a backup:
/// the coordinator first, the others by identity. Identities and failure
/// domains must be unique.
pub fn order_direct_peers(
    nodes: &Vec<Id32>,
    failure_domains: &Vec<String>,
    coordinator: &Id32,
) -> (order: Result<Vec<MemberPlace>, CommitError>)
    ensures
        ({
            let unique = all_unique(nodes@) && all_unique(
                crate::endpoints::texts(failure_domains@),
            );
            match order {
                Ok(order) => {
                    &&& nodes@.len() == BACKUP_PEERS
                    &&& unique
                    &&& first_place(nodes@, *coordinator) is Some
                    &&& order@ == led_by(nodes@, first_place(nodes@, *coordinator)->0)
                },
                Err(error) => if nodes@.len() != BACKUP_PEERS {
                    error == CommitError::NotFivePeers
                } else if !unique {
                    error == CommitError::DuplicatePeers
                } else {
                    error == CommitError::OwnerNotMember && first_place(
                        nodes@,
                        *coordinator,
                    ) is None
                },
            }
        }),
{
    if nodes.len() != BACKUP_PEERS {
        return Err(CommitError::NotFivePeers);
    }
    if !unique_ids(nodes) || !unique_texts(failure_domains) {
        return Err(CommitError::DuplicatePeers);
    }
    match place_of(nodes, coordinator) {
        Some(place) => Ok(lead(nodes, place)),
        None => Err(CommitError::OwnerNotMember),
    }
}

/// A backup job, as far as it is checked.
#[derive(Clone, Copy, Debug)]
pub struct BackupJob {
    pub guild_id: Id32,
    pub owner: Id32,
    pub revision_id: u128,
}

/// Whether a backup job belongs to this coordinator of a certified guild.
pub fn check_backup_job(
    job: &BackupJob,
    certified_guild: &Id32,
    certified_coordinator: &Id32,
    local: &Id32,
    members: &Vec<Id32>,
) -> (result: Result<(), CommitError>)
    ensures
        match result {
            Ok(()) => *certified_guild == job.guild_id && *certified_coordinator == *local && (
            job.owner == *local ==> first_place(members@, *local) is Some),
            Err(error) => error == CommitError::WrongCoordinator && !(*certified_guild
                == job.guild_id && *certified_coordinator == *local && (job.owner == *local
                ==> first_place(members@, *local) is Some)),
        },
{
    if !certified_guild.equals(&job.guild_id) || !certified_coordinator.equals(local)
        || job.owner.equals(local) && place_of(members, local).is_none() {
        Err(CommitError::WrongCoordinator)
    } else {
        Ok(())
    }
}

/// A state holds the revision of a job.
pub open spec fn holds_revision(revisions: Seq<RevisionFacts>, job: BackupJob) -> bool {
    exists|i: int|
        0 <= i < revisions.len() && (#[trigger] revisions[i]).revision_id == job.revision_id
            && revisions[i].owner == job.owner
}

/// Whether a state holds the revision of a job already.
pub fn already_committed(revisions: &Vec<RevisionFacts>, job: &BackupJob) -> (result: bool)
    ensures
        result == holds_revision(revisions@, *job),
{
    let mut i: usize = 0;
    while i < revisions.len()
        invariant
            i <= revisions@.len(),
            forall|k: int|
                0 <= k < i ==> !((#[trigger] revisions@[k]).revision_id == job.revision_id
                    && revisions@[k].owner == job.owner),
        decreases revisions@.len() - i,
    {
        if revisions[i].revision_id == job.revision_id && revisions[i].owner.equals(&job.owner) {
            assert(revisions@[i as int].revision_id == job.revision_id);
            return true;
        }
        i += 1;
    }
    false
}

/// A revision that its owner prepared, as far as it is checked.
#[derive(Clone, Copy, Debug)]
pub struct PreparedRevision {
    /// The signature over the revision is that of its signer.
    pub signature_valid: bool,
    pub signer: Id32,
    pub owner: Id32,
    pub guild_id: Id32,
    pub revision_id: u128,
    /// How many sectors it has, of metadata and of data.
    pub sectors: usize,
}

/// A prepared revision is the one of a job.
pub open spec fn revision_of_job(revision: PreparedRevision, job: BackupJob) -> bool {
    &&& revision.signature_valid
    &&& revision.signer == job.owner
    &&& revision.owner == job.owner
    &&& revision.guild_id == job.guild_id
    &&& revision.revision_id == job.revision_id
}

/// Checks a prepared revision against its job and the size of the catalog.
pub fn check_prepared_revision(
    revision: &PreparedRevision,
    job: &BackupJob,
    max_coding_groups: usize,
) -> (result: Result<(), CommitError>)
    ensures
        result == (if !revision_of_job(*revision, *job) {
            Err::<(), CommitError>(CommitError::WrongRevision)
        } else if revision.sectors == 0 || revision.sectors > max_coding_groups {
            Err(CommitError::SectorCount)
        } else {
            Ok(())
        }),
{
    if !revision.signature_valid || !revision.signer.equals(&job.owner) || !revision.owner.equals(
        &job.owner,
    ) || !revision.guild_id.equals(&job.guild_id) || revision.revision_id != job.revision_id {
        return Err(CommitError::WrongRevision);
    }
    if revision.sectors == 0 || revision.sectors > max_coding_groups {
        return Err(CommitError::SectorCount);
    }
    Ok(())
}

/// How many sectors there are at most whose fillers can be numbered.
pub const MAX_NUMBERED_SECTORS: u64 = 0x8000_0000_0000_0000;

/// The numbers of the fillers that two helpers put beside a sector.
pub fn filler_ordinals(ordinal: u64) -> (ordinals: (u64, u64))
    requires
        ordinal < MAX_NUMBERED_SECTORS,
    ensures
        ordinals.0 == ordinal * 2,
        ordinals.1 == ordinal * 2 + 1,
{
    (ordinal * 2, ordinal * 2 + 1)
}

/// A sector as it stands in a coding group.
#[derive(Clone, Copy, Debug)]
pub struct SectorRef {
    pub id: Id32,
    pub root: Id32,
}

/// The parts of the five peers in a coding group: the owner's sector, a filler
/// of each of two helpers, and two rows of parity.
pub open spec fn group_roles(
    peers: Seq<MemberPlace>,
    sectors: (SectorRef, SectorRef, SectorRef),
    parity: (Id32, Id32),
) -> Seq<ShardRole> {
    seq![
        ShardRole::Information {
            owner: peers[0].node,
            sector_id: sectors.0.id,
            root: sectors.0.root,
        },
        ShardRole::Information {
            owner: peers[1].node,
            sector_id: sectors.1.id,
            root: sectors.1.root,
        },
        ShardRole::Information {
            owner: peers[2].node,
            sector_id: sectors.2.id,
            root: sectors.2.root,
        },
        ShardRole::Parity { holder: peers[3].node, row: 0, root: parity.0 },
        ShardRole::Parity { holder: peers[4].node, row: 1, root: parity.1 },
    ]
}

/// The parts of the five peers in a coding group.
pub fn coding_roles(
    peers: &Vec<MemberPlace>,
    sectors: (SectorRef, SectorRef, SectorRef),
    parity: (Id32, Id32),
) -> (roles: Vec<ShardRole>)
    requires
        peers@.len() == BACKUP_PEERS,
    ensures
        roles@ == group_roles(peers@, sectors, parity),
{
    let mut roles: Vec<ShardRole> = Vec::new();
    roles.push(
        ShardRole::Information {
            owner: peers[0].node,
            sector_id: sectors.0.id,
            root: sectors.0.root,
        },
    );
    roles.push(
        ShardRole::Information {
            owner: peers[1].node,
            sector_id: sectors.1.id,
            root: sectors.1.root,
        },
    );
    roles.push(
        ShardRole::Information {
            owner: peers[2].node,
            sector_id: sectors.2.id,
            root: sectors.2.root,
        },
    );
    roles.push(ShardRole::Parity { holder: peers[3].node, row: 0, root: parity.0 });
    roles.push(ShardRole::Parity { holder: peers[4].node, row: 1, root: parity.1 });
    assert(roles@ =~= group_roles(peers@, sectors, parity));
    roles
}

/// The parts of a group are spread over all five peers: none takes two, so any
/// three peers can rebuild what the others held.
pub proof fn parts_are_spread(
    members: Seq<Id32>,
    leader: int,
    sectors: (SectorRef, SectorRef, SectorRef),
    parity: (Id32, Id32),
    i: int,
    j: int,
)
    requires
        members.len() == BACKUP_PEERS,
        all_unique(members),
        0 <= leader < members.len(),
        0 <= i < j < 5,
    ensures
        ({
            let roles = group_roles(led_by(members, leader), sectors, parity);
            roles[i].held_by() != roles[j].held_by()
        }),
{
    everyone_has_a_place(members, leader);
    let order = led_by(members, leader);
    let x = order[i];
    let y = order[j];
    assert(x.place != y.place);
    if x.place < y.place {
        assert(members[x.place as int] != members[y.place as int]);
    } else {
        assert(members[y.place as int] != members[x.place as int]);
    }
    let roles = group_roles(order, sectors, parity);
    assert(roles[i].held_by() == x.node);
    assert(roles[j].held_by() == y.node);
}

/// Everyone in the order of a backup is a member, at its place, and no one is
/// in it twice or missing from it.
pub proof fn everyone_has_a_place(members: Seq<Id32>, leader: int)
    requires
        members.len() <= usize::MAX,
        0 <= leader < members.len(),
    ensures
        led_by(members, leader).len() == members.len(),
        forall|i: int|
            0 <= i < members.len() ==> {
                let entry = #[trigger] led_by(members, leader)[i];
                entry.place < members.len() && entry.node == members[entry.place as int]
            },
        forall|i: int, j: int|
            0 <= i < j < members.len() ==> (#[trigger] led_by(members, leader)[i]).place != (
            #[trigger] led_by(members, leader)[j]).place,
{
    let rest = places_but(members, leader);
    lemma_places(members, leader);
    crate::ids::sorting_permutes_and_orders(rest);
    let sorted = sorted_by_key(rest);
    let order = led_by(members, leader);
    lemma_sorted_unique_places(rest, sorted);
    assert forall|i: int| 0 <= i < members.len() implies {
        let entry = #[trigger] order[i];
        entry.place < members.len() && entry.node == members[entry.place as int]
    } by {
        if i > 0 {
            assert(order[i] == sorted[i - 1]);
            assert(rest.contains(sorted[i - 1]));
        }
    }
    assert forall|i: int, j: int| 0 <= i < j < members.len() implies (#[trigger] order[i]).place
        != (#[trigger] order[j]).place by {
        assert(order[j] == sorted[j - 1]);
        if i == 0 {
            assert(rest.contains(sorted[j - 1]));
        } else {
            assert(order[i] == sorted[i - 1]);
        }
    }
}

/// The same of the members in the order of their identities.
pub proof fn everyone_has_a_place_by_identity(members: Seq<Id32>)
    requires
        members.len() <= usize::MAX,
    ensures
        sorted_by_key(places_but(members, -1)).len() == members.len(),
        forall|i: int|
            0 <= i < members.len() ==> {
                let entry = #[trigger] sorted_by_key(places_but(members, -1))[i];
                entry.place < members.len() && entry.node == members[entry.place as int]
            },
        forall|i: int, j: int|
            0 <= i < j < members.len() ==> (#[trigger] sorted_by_key(
                places_but(members, -1),
            )[i]).place != (#[trigger] sorted_by_key(places_but(members, -1))[j]).place,
{
    let all = places_but(members, -1);
    lemma_places(members, -1);
    crate::ids::sorting_permutes_and_orders(all);
    let sorted = sorted_by_key(all);
    lemma_sorted_unique_places(all, sorted);
    assert forall|i: int| 0 <= i < members.len() implies {
        let entry = #[trigger] sorted[i];
        entry.place < members.len() && entry.node == members[entry.place as int]
    } by {
        assert(all.contains(sorted[i]));
    }
}

proof fn lemma_places(members: Seq<Id32>, but: int)
    requires
        members.len() <= usize::MAX,
    ensures
        forall|k: int|
            0 <= k < places_but(members, but).len() ==> {
                let place = #[trigger] places_but(members, but)[k];
                place.place < members.len() && place.place != but && place.node
                    == members[place.place as int]
            },
        forall|a: int, b: int|
            0 <= a < b < places_but(members, but).len() ==> (#[trigger] places_but(
                members,
                but,
            )[a]).place < (#[trigger] places_but(members, but)[b]).place,
        places_but(members, but).len() == (if 0 <= but < members.len() {
            members.len() - 1
        } else {
            members.len() as int
        }),
    decreases members.len(),
{
    if members.len() > 0 {
        lemma_places(members.drop_last(), but);
        let before = places_but(members.drop_last(), but);
        assert forall|k: int| 0 <= k < places_but(members, but).len() implies ({
            let place = #[trigger] places_but(members, but)[k];
            place.place < members.len() && place.place != but && place.node
                == members[place.place as int]
        }) by {
            if k < before.len() {
                assert(places_but(members, but)[k] == before[k]);
                assert(members.drop_last()[before[k].place as int]
                    == members[before[k].place as int]);
            }
        }
        assert forall|a: int, b: int| 0 <= a < b < places_but(members, but).len() implies (
        #[trigger] places_but(members, but)[a]).place < (#[trigger] places_but(
            members,
            but,
        )[b]).place by {
            assert(places_but(members, but)[a] == before[a]);
            if b < before.len() {
                assert(places_but(members, but)[b] == before[b]);
            }
        }
    }
}

proof fn lemma_sorted_unique_places(rest: Seq<MemberPlace>, sorted: Seq<MemberPlace>)
    requires
        sorted.to_multiset() == rest.to_multiset(),
        sorted.len() == rest.len(),
        forall|a: int, b: int|
            0 <= a < b < rest.len() ==> (#[trigger] rest[a]).place < (#[trigger] rest[b]).place,
    ensures
        forall|k: int| 0 <= k < sorted.len() ==> rest.contains(#[trigger] sorted[k]),
        forall|a: int, b: int|
            0 <= a < b < sorted.len() ==> (#[trigger] sorted[a]).place != (
            #[trigger] sorted[b]).place,
{
    broadcast use vstd::seq_lib::group_to_multiset_ensures;

    assert forall|k: int| 0 <= k < sorted.len() implies rest.contains(#[trigger] sorted[k]) by {
        assert(sorted.contains(sorted[k]));
        assert(sorted.to_multiset().count(sorted[k]) > 0);
    }
    assert(rest.no_duplicates()) by {
        assert forall|a: int, b: int|
            0 <= a < rest.len() && 0 <= b < rest.len() && a != b implies rest[a] != rest[b] by {
            if a < b {
                assert(rest[a].place < rest[b].place);
            } else {
                assert(rest[b].place < rest[a].place);
            }
        }
    }
    rest.lemma_multiset_has_no_duplicates();
    assert forall|x: MemberPlace| sorted.to_multiset().count(x) <= 1 by {
        if sorted.to_multiset().count(x) > 0 {
            assert(rest.to_multiset().contains(x));
        }
    }
    sorted.lemma_multiset_has_no_duplicates_conv();
    assert forall|a: int, b: int| 0 <= a < b < sorted.len() implies (#[trigger] sorted[a]).place
        != (#[trigger] sorted[b]).place by {
        let x = choose|x: int| 0 <= x < rest.len() && rest[x] == sorted[a];
        let y = choose|y: int| 0 <= y < rest.len() && rest[y] == sorted[b];
        assert(rest.contains(sorted[a]) && rest.contains(sorted[b]));
        assert(sorted[a] != sorted[b]);
        if x < y {
            assert(rest[x].place < rest[y].place);
        } else if y < x {
            assert(rest[y].place < rest[x].place);
        }
    }
}

/// The generation of the next state: one after the last, or the first.
pub fn next_generation(previous: Option<u64>) -> (generation: Result<u64, CommitError>)
    ensures
        match generation {
            Ok(generation) => generation == (match previous {
                Some(previous) => previous + 1,
                None => 1,
            }),
            Err(error) => error == CommitError::GenerationExhausted && previous == Some(u64::MAX),
        },
{
    match previous {
        Some(previous) => match previous.checked_add(1) {
            Some(generation) => Ok(generation),
            None => Err(CommitError::GenerationExhausted),
        },
        None => Ok(1),
    }
}

/// Revisions stand in a state by owner, number and identity.
impl Keyed for RevisionFacts {
    open spec fn key(&self) -> Seq<u8> {
        self.owner@ + big_endian(self.sequence as nat, 8) + big_endian(self.revision_id as nat, 16)
    }

    fn key_le(&self, other: &Self) -> (result: bool) {
        let mine = revision_key(self);
        let its = revision_key(other);
        bytes_le(mine.as_slice(), its.as_slice())
    }
}

fn revision_key(revision: &RevisionFacts) -> (key: Vec<u8>)
    ensures
        key@ == revision.owner@ + big_endian(revision.sequence as nat, 8) + big_endian(
            revision.revision_id as nat,
            16,
        ),
{
    let mut key: Vec<u8> = Vec::new();
    let mut i: usize = 0;
    while i < 32
        invariant
            i <= 32,
            key@ == revision.owner@.take(i as int),
        decreases 32 - i,
    {
        key.push(revision.owner.0[i]);
        assert(revision.owner@.take(i + 1) =~= revision.owner@.take(i as int).push(
            revision.owner@[i as int],
        ));
        i += 1;
    }
    assert(revision.owner@.take(32) =~= revision.owner@);
    let mut sequence = crate::ordered::Ranked::rank(&revision.sequence);
    let mut identity = crate::ordered::Ranked::rank(&revision.revision_id);
    key.append(&mut sequence);
    key.append(&mut identity);
    key
}

/// The revisions of the next state: those of the last and a new one, in order.
pub fn next_revisions(previous: Vec<RevisionFacts>, revision: RevisionFacts) -> (revisions: Vec<
    RevisionFacts,
>)
    ensures
        revisions@ == sorted_by_key(previous@.push(revision)),
{
    let mut all = previous;
    all.push(revision);
    sort_by_key(all)
}

/// Puts copies of values behind those of a list.
pub fn push_copies<T: Copy>(list: &mut Vec<T>, from: &Vec<T>)
    ensures
        final(list)@ == old(list)@ + from@,
{
    let ghost start = list@;
    let mut i: usize = 0;
    assert(start =~= start + from@.take(0));
    while i < from.len()
        invariant
            i <= from@.len(),
            list@ == start + from@.take(i as int),
        decreases from@.len() - i,
    {
        list.push(from[i]);
        assert(list@ =~= start + from@.take(i + 1));
        i += 1;
    }
    assert(from@.take(i as int) =~= from@);
}

/// The places of identities, by identity: for the coding groups, the members
/// and the signatures of a state.
pub fn order_by_id(ids: &Vec<Id32>) -> (order: Vec<MemberPlace>)
    ensures
        order@ == sorted_by_key(places_but(ids@, -1)),
{
    let mut all: Vec<MemberPlace> = Vec::new();
    let mut i: usize = 0;
    assert(ids@.take(0) =~= Seq::empty());
    while i < ids.len()
        invariant
            i <= ids@.len(),
            all@ == places_but(ids@.take(i as int), -1),
        decreases ids@.len() - i,
    {
        assert(ids@.take(i + 1).drop_last() =~= ids@.take(i as int));
        all.push(MemberPlace { node: ids[i], place: i });
        i += 1;
    }
    assert(ids@.take(i as int) =~= ids@);
    sort_by_key(all)
}

/// A holder's acknowledgement that it keeps a parity shard.
#[derive(Clone, Copy, Debug)]
pub struct StorageAcknowledgement {
    /// It is well formed, and the signature over it is that of its signer.
    pub signature_valid: bool,
    pub signer: Id32,
    pub holder: Id32,
    pub operation_id: u128,
    pub guild_id: Id32,
    pub group_id: Id32,
    pub shard_index: u8,
    pub root: Id32,
}

/// What a holder was asked to keep.
#[derive(Clone, Copy, Debug)]
pub struct StorageRequest {
    pub peer: Id32,
    pub operation_id: u128,
    pub guild_id: Id32,
    pub group_id: Id32,
    pub shard_index: u8,
    pub root: Id32,
}

/// An acknowledgement is for what was asked, by whom it was asked.
pub open spec fn acknowledges(
    acknowledgement: StorageAcknowledgement,
    request: StorageRequest,
) -> bool {
    &&& acknowledgement.signature_valid
    &&& acknowledgement.signer == request.peer
    &&& acknowledgement.holder == request.peer
    &&& acknowledgement.operation_id == request.operation_id
    &&& acknowledgement.guild_id == request.guild_id
    &&& acknowledgement.group_id == request.group_id
    &&& acknowledgement.shard_index == request.shard_index
    &&& acknowledgement.root == request.root
}

/// Whether an acknowledgement is for what was asked, by whom it was asked.
pub fn acknowledgement_matches(
    acknowledgement: &StorageAcknowledgement,
    request: &StorageRequest,
) -> (matches: bool)
    ensures
        matches == acknowledges(*acknowledgement, *request),
{
    acknowledgement.signature_valid && acknowledgement.signer.equals(&request.peer)
        && acknowledgement.holder.equals(&request.peer) && acknowledgement.operation_id
        == request.operation_id && acknowledgement.guild_id.equals(&request.guild_id)
        && acknowledgement.group_id.equals(&request.group_id) && acknowledgement.shard_index
        == request.shard_index && acknowledgement.root.equals(&request.root)
}

/// An acknowledgement counts only if the one who was asked signed it and is to keep
/// just what was asked for: that shard of that group of that guild, with that root,
/// for that operation. One that differs in any of this does not count.
pub proof fn only_the_holder_acknowledges(request: StorageRequest, given: StorageAcknowledgement)
    ensures
        acknowledges(
            (StorageAcknowledgement {
                signature_valid: true,
                signer: request.peer,
                holder: request.peer,
                operation_id: request.operation_id,
                guild_id: request.guild_id,
                group_id: request.group_id,
                shard_index: request.shard_index,
                root: request.root,
            }),
            request,
        ),
        !given.signature_valid || given.signer != request.peer || given.holder != request.peer
            ==> !acknowledges(given, request),
        given.operation_id != request.operation_id || given.guild_id != request.guild_id
            ==> !acknowledges(given, request),
        given.group_id != request.group_id || given.shard_index != request.shard_index || given.root
            != request.root ==> !acknowledges(given, request),
{
}

/// A revision counts for a job only if the owner of the job owns and signed it, for
/// the guild of the job, and it has the number of the job. A state holds the job's
/// revision once it lists it for that owner.
pub proof fn only_the_owner_prepares_a_revision(
    revision: PreparedRevision,
    job: BackupJob,
    revisions: Seq<RevisionFacts>,
    at: int,
)
    ensures
        revision_of_job(
            (PreparedRevision {
                signature_valid: true,
                signer: job.owner,
                owner: job.owner,
                guild_id: job.guild_id,
                revision_id: job.revision_id,
                sectors: revision.sectors,
            }),
            job,
        ),
        !revision.signature_valid || revision.signer != job.owner || revision.owner != job.owner
            ==> !revision_of_job(revision, job),
        revision.guild_id != job.guild_id || revision.revision_id != job.revision_id
            ==> !revision_of_job(revision, job),
        0 <= at < revisions.len() && revisions[at].owner == job.owner && revisions[at].revision_id
            == job.revision_id ==> holds_revision(revisions, job),
        (forall|i: int|
            0 <= i < revisions.len() ==> (#[trigger] revisions[i]).owner != job.owner
                || revisions[i].revision_id != job.revision_id) ==> !holds_revision(revisions, job),
{
}

/// The place of a node is the first at which it stands; a node that stands nowhere
/// has none.
pub proof fn a_node_has_its_first_place(members: Seq<Id32>, node: Id32, at: int)
    ensures
        first_place(members, node) is None <==> !members.contains(node),
        0 <= at < members.len() && members[at] == node && (forall|i: int|
            0 <= i < at ==> #[trigger] members[i] != node) ==> first_place(members, node) == Some(at),
    decreases members.len(),
{
    if members.len() > 0 {
        let before = members.drop_last();
        a_node_has_its_first_place(before, node, at);
        assert(members.last() == members[members.len() - 1]);
        if before.contains(node) {
            let k = choose|k: int| 0 <= k < before.len() && before[k] == node;
            assert(members[k] == node);
        } else if members.contains(node) {
            let k = choose|k: int| 0 <= k < members.len() && members[k] == node;
            if k < before.len() {
                assert(before[k] == node);
            }
        }
        if 0 <= at < members.len() && members[at] == node && (forall|i: int|
            0 <= i < at ==> #[trigger] members[i] != node) {
            if at < before.len() {
                assert(before[at] == node);
                assert forall|i: int| 0 <= i < at implies #[trigger] before[i] != node by {
                    assert(before[i] == members[i]);
                }
            } else {
                if before.contains(node) {
                    let k = choose|k: int| 0 <= k < before.len() && before[k] == node;
                    assert(members[k] == node);
                }
            }
        }
    }
}

} // verus!
