//! Coding groups: who holds which shard, and which shards are fetched to
//! rebuild one that is lost.

use crate::ids::Id32;
use crate::table::{Key, KeySet, Stored, Table};
use vstd::prelude::*;

verus! {

/// How many valid shards of a group rebuild the others.
pub const DATA_SHARDS: usize = 3;

/// How often the shards of a group are asked for.
pub const SHARD_FETCH_ATTEMPTS: u32 = 3;

/// What a member of a coding group holds.
#[derive(Clone, Copy, Debug)]
pub enum ShardRole {
    /// A sector of the member's own.
    Information { owner: Id32, sector_id: Id32, root: Id32 },
    Parity { holder: Id32, row: u8, root: Id32 },
}

impl ShardRole {
    pub open spec fn held_by(self) -> Id32 {
        match self {
            ShardRole::Information { owner, .. } => owner,
            ShardRole::Parity { holder, .. } => holder,
        }
    }

    pub open spec fn root_of(self) -> Id32 {
        match self {
            ShardRole::Information { root, .. } => root,
            ShardRole::Parity { root, .. } => root,
        }
    }

    /// Who holds the shard.
    pub fn holder(&self) -> (holder: Id32)
        ensures
            holder == self.held_by(),
    {
        match self {
            ShardRole::Information { owner, .. } => *owner,
            ShardRole::Parity { holder, .. } => *holder,
        }
    }

    /// The root of the shard's bytes.
    pub fn root(&self) -> (root: Id32)
        ensures
            root == self.root_of(),
    {
        match self {
            ShardRole::Information { root, .. } => *root,
            ShardRole::Parity { root, .. } => *root,
        }
    }
}

/// The shard of a group that a node holds: the first, if there are several.
pub fn local_shard(roles: &Vec<ShardRole>, node: &Id32) -> (index: Option<usize>)
    ensures
        match index {
            Some(index) => {
                &&& index < roles@.len()
                &&& roles@[index as int].held_by() == *node
                &&& forall|k: int| 0 <= k < index ==> (#[trigger] roles@[k]).held_by() != *node
            },
            None => forall|k: int|
                0 <= k < roles@.len() ==> (#[trigger] roles@[k]).held_by() != *node,
        },
{
    let mut i: usize = 0;
    while i < roles.len()
        invariant
            i <= roles@.len(),
            forall|k: int| 0 <= k < i ==> (#[trigger] roles@[k]).held_by() != *node,
        decreases roles@.len() - i,
    {
        if roles[i].holder().equals(node) {
            return Some(i);
        }
        i += 1;
    }
    None
}

/// A shard as it was received is the one that was asked for.
pub fn shard_valid(length: usize, shard_size: u32, root: &Id32, expected: &Id32) -> (valid: bool)
    ensures
        valid == (length == shard_size && *root == *expected),
{
    length == shard_size as usize && root.equals(expected)
}

/// How many of the first so many shards are there.
pub open spec fn present(have: Seq<bool>) -> nat
    decreases have.len(),
{
    if have.len() == 0 {
        0
    } else {
        present(have.drop_last()) + if have.last() {
            1nat
        } else {
            0nat
        }
    }
}

/// How many shards are there.
pub fn count_present(have: &Vec<bool>) -> (count: usize)
    ensures
        count == present(have@),
        count <= have@.len(),
{
    let mut count: usize = 0;
    let mut i: usize = 0;
    assert(have@.take(0) =~= Seq::empty());
    while i < have.len()
        invariant
            i <= have@.len(),
            count <= i,
            count == present(have@.take(i as int)),
        decreases have@.len() - i,
    {
        assert(have@.take(i + 1).drop_last() =~= have@.take(i as int));
        if have[i] {
            count += 1;
        }
        i += 1;
    }
    assert(have@.take(i as int) =~= have@);
    count
}

/// Whether enough shards are there to rebuild the others.
pub fn enough_shards(have: &Vec<bool>) -> (enough: bool)
    ensures
        enough == (present(have@) >= DATA_SHARDS),
{
    count_present(have) >= DATA_SHARDS
}

/// A shard may be asked for: it is not the one to rebuild, it is not there
/// yet, and its holder is known.
pub open spec fn askable(
    roles: Seq<ShardRole>,
    target: int,
    have: Seq<bool>,
    roster: Seq<Id32>,
    index: int,
) -> bool {
    index != target && !have[index] && roster.contains(roles[index].held_by())
}

/// Of the first so many shards, those that may be asked for and whose holders
/// were, or were not, found wanting.
pub open spec fn askable_upto(
    roles: Seq<ShardRole>,
    target: int,
    have: Seq<bool>,
    roster: Seq<Id32>,
    deferred: Set<Id32>,
    wanting: bool,
    n: int,
) -> Seq<usize>
    decreases n,
{
    if n <= 0 {
        Seq::empty()
    } else {
        let before = askable_upto(roles, target, have, roster, deferred, wanting, n - 1);
        if askable(roles, target, have, roster, n - 1) && deferred.contains(roles[n - 1].held_by())
            == wanting {
            before.push((n - 1) as usize)
        } else {
            before
        }
    }
}

/// The shards to ask for: those of holders in good standing, one more than are
/// needed; and all, where these are too few.
pub open spec fn plan(
    roles: Seq<ShardRole>,
    target: int,
    have: Seq<bool>,
    roster: Seq<Id32>,
    deferred: Set<Id32>,
) -> Seq<usize> {
    let n = roles.len() as int;
    let preferred = askable_upto(roles, target, have, roster, deferred, false, n);
    let others = askable_upto(roles, target, have, roster, deferred, true, n);
    let needed = if present(have) < DATA_SHARDS {
        DATA_SHARDS - present(have)
    } else {
        0
    };
    if preferred.len() >= needed {
        preferred.take(
            if preferred.len() < needed + 1 {
                preferred.len() as int
            } else {
                needed + 1
            },
        )
    } else {
        preferred + others
    }
}

fn contains_id(list: &Vec<Id32>, id: &Id32) -> (result: bool)
    ensures
        result == list@.contains(*id),
{
    let mut i: usize = 0;
    while i < list.len()
        invariant
            i <= list@.len(),
            forall|k: int| 0 <= k < i ==> list@[k] != *id,
        decreases list@.len() - i,
    {
        if list[i].equals(id) {
            assert(list@[i as int] == *id);
            return true;
        }
        i += 1;
    }
    false
}

/// The shards of a group to ask for, in order.
pub fn fetch_plan(
    roles: &Vec<ShardRole>,
    target: usize,
    have: &Vec<bool>,
    roster: &Vec<Id32>,
    deferred: &KeySet<Id32>,
) -> (indexes: Vec<usize>)
    requires
        have@.len() == roles@.len(),
        deferred.wf(),
    ensures
        indexes@ == plan(roles@, target as int, have@, roster@, deferred@),
{
    let mut preferred: Vec<usize> = Vec::new();
    let mut others: Vec<usize> = Vec::new();
    let mut i: usize = 0;
    while i < roles.len()
        invariant
            i <= roles@.len() == have@.len(),
            deferred.wf(),
            preferred@ == askable_upto(
                roles@,
                target as int,
                have@,
                roster@,
                deferred@,
                false,
                i as int,
            ),
            others@ == askable_upto(
                roles@,
                target as int,
                have@,
                roster@,
                deferred@,
                true,
                i as int,
            ),
        decreases roles@.len() - i,
    {
        let holder = roles[i].holder();
        if i != target && !have[i] && contains_id(roster, &holder) {
            if deferred.contains(holder) {
                others.push(i);
            } else {
                preferred.push(i);
            }
        }
        i += 1;
    }
    let count: usize = count_present(have);
    let needed: usize = if count < DATA_SHARDS {
        DATA_SHARDS - count
    } else {
        0
    };
    if preferred.len() >= needed {
        let ghost all = preferred@;
        if preferred.len() > needed {
            preferred.truncate(needed + 1);
        }
        assert(preferred@ =~= all.take(
            if all.len() < needed + 1 {
                all.len() as int
            } else {
                needed + 1
            },
        ));
        preferred
    } else {
        preferred.append(&mut others);
        preferred
    }
}

/// What is known of the holders after a round: one that gave a valid shard is
/// in good standing, any other that was asked is not.
pub open spec fn standing(
    deferred: Set<Id32>,
    roles: Seq<ShardRole>,
    have: Seq<bool>,
    asked: Seq<usize>,
) -> Set<Id32>
    decreases asked.len(),
{
    if asked.len() == 0 {
        deferred
    } else {
        let before = standing(deferred, roles, have, asked.drop_last());
        let index = asked.last() as int;
        if have[index] {
            before.remove(roles[index].held_by())
        } else {
            before.insert(roles[index].held_by())
        }
    }
}

/// Notes the standing of the holders after a round.
pub fn note_standing(
    deferred: &mut KeySet<Id32>,
    roles: &Vec<ShardRole>,
    have: &Vec<bool>,
    asked: &Vec<usize>,
)
    requires
        old(deferred).wf(),
        have@.len() == roles@.len(),
        forall|i: int| 0 <= i < asked@.len() ==> (#[trigger] asked@[i]) < roles@.len(),
    ensures
        final(deferred).wf(),
        final(deferred)@ == standing(old(deferred)@, roles@, have@, asked@),
{
    let mut i: usize = 0;
    assert(asked@.take(0) =~= Seq::empty());
    while i < asked.len()
        invariant
            i <= asked@.len(),
            deferred.wf(),
            have@.len() == roles@.len(),
            forall|k: int| 0 <= k < asked@.len() ==> (#[trigger] asked@[k]) < roles@.len(),
            deferred@ == standing(old(deferred)@, roles@, have@, asked@.take(i as int)),
        decreases asked@.len() - i,
    {
        assert(asked@.take(i + 1).drop_last() =~= asked@.take(i as int));
        let index: usize = asked[i];
        let holder = roles[index].holder();
        if have[index] {
            let _ = deferred.remove(holder);
        } else {
            deferred.insert(holder);
        }
        i += 1;
    }
    assert(asked@.take(i as int) =~= asked@);
}

proof fn lemma_askable_members(
    roles: Seq<ShardRole>,
    target: int,
    have: Seq<bool>,
    roster: Seq<Id32>,
    deferred: Set<Id32>,
    wanting: bool,
    n: int,
)
    requires
        0 <= n <= roles.len() <= usize::MAX,
    ensures
        forall|k: int|
            0 <= k < askable_upto(roles, target, have, roster, deferred, wanting, n).len() ==> {
                let index =
                    #[trigger] askable_upto(roles, target, have, roster, deferred, wanting, n)[k];
                index < n && askable(roles, target, have, roster, index as int)
            },
        askable_upto(roles, target, have, roster, deferred, wanting, n).len() <= n,
    decreases n,
{
    if n > 0 {
        lemma_askable_members(roles, target, have, roster, deferred, wanting, n - 1);
    }
}

/// A plan asks only for shards that may be asked for; it asks for no more than
/// one beyond those that are needed, unless the holders in good standing are
/// too few for that.
pub proof fn plans_ask_for_what_helps(
    roles: Seq<ShardRole>,
    target: int,
    have: Seq<bool>,
    roster: Seq<Id32>,
    deferred: Set<Id32>,
)
    requires
        roles.len() <= usize::MAX,
    ensures
        ({
            let asked = plan(roles, target, have, roster, deferred);
            let preferred = askable_upto(
                roles,
                target,
                have,
                roster,
                deferred,
                false,
                roles.len() as int,
            );
            &&& forall|k: int|
                0 <= k < asked.len() ==> (#[trigger] asked[k]) < roles.len() && askable(
                    roles,
                    target,
                    have,
                    roster,
                    asked[k] as int,
                )
            &&& present(have) + preferred.len() >= DATA_SHARDS ==> asked.len() + present(have)
                <= DATA_SHARDS + 1 || present(have) > DATA_SHARDS && asked.len() <= 1
        }),
{
    let n = roles.len() as int;
    lemma_askable_members(roles, target, have, roster, deferred, false, n);
    lemma_askable_members(roles, target, have, roster, deferred, true, n);
    let preferred = askable_upto(roles, target, have, roster, deferred, false, n);
    let others = askable_upto(roles, target, have, roster, deferred, true, n);
    let asked = plan(roles, target, have, roster, deferred);
    assert forall|k: int| 0 <= k < asked.len() implies (#[trigger] asked[k]) < roles.len()
        && askable(roles, target, have, roster, asked[k] as int) by {
        if k < preferred.len() {
            assert(asked[k] == preferred[k]);
        } else {
            assert(asked[k] == others[k - preferred.len()]);
        }
    }
}

/// How far the fetching of a group's shards has come: the shards that are
/// there, and the holders that were found wanting.
pub struct FetchState {
    pub have: Seq<bool>,
    pub deferred: Set<Id32>,
}

/// One round of asking, where the holders of exactly these shards have them:
/// the shards of the plan are asked for, and those that are had are taken, in
/// whatever order the answers come, until there are enough.
pub open spec fn round_goes(
    roles: Seq<ShardRole>,
    target: int,
    roster: Seq<Id32>,
    valid: Seq<bool>,
    before: FetchState,
    after: FetchState,
) -> bool {
    let asked = plan(roles, target, before.have, roster, before.deferred);
    &&& after.have.len() == before.have.len()
    &&& forall|i: int|
        0 <= i < before.have.len() ==> {
            &&& before.have[i] ==> #[trigger] after.have[i]
            &&& after.have[i] ==> before.have[i] || (asked.contains(i as usize) && valid[i])
            &&& present(after.have) < DATA_SHARDS && asked.contains(i as usize) && valid[i]
                ==> after.have[i]
        }
    &&& after.deferred == standing(before.deferred, roles, after.have, asked)
}

/// Fetching, round by round, until there are enough shards.
pub open spec fn fetch_goes(
    roles: Seq<ShardRole>,
    target: int,
    roster: Seq<Id32>,
    valid: Seq<bool>,
    states: Seq<FetchState>,
) -> bool {
    &&& states.len() > 0
    &&& states[0].have.len() == roles.len()
    &&& forall|i: int| 0 <= i < roles.len() ==> !(#[trigger] states[0].have[i])
    &&& forall|k: int|
        #![trigger states[k]]
        0 <= k < states.len() - 1 ==> if present(states[k].have) < DATA_SHARDS {
            round_goes(roles, target, roster, valid, states[k], states[k + 1])
        } else {
            states[k + 1] == states[k]
        }
}

/// Which shards may be asked for and have holders that were, or were not,
/// found wanting.
spec fn asking_mask(
    roles: Seq<ShardRole>,
    target: int,
    have: Seq<bool>,
    roster: Seq<Id32>,
    deferred: Set<Id32>,
    wanting: bool,
) -> Seq<bool> {
    Seq::new(
        roles.len(),
        |i: int|
            askable(roles, target, have, roster, i) && deferred.contains(roles[i].held_by())
                == wanting,
    )
}

proof fn lemma_askable_exact(
    roles: Seq<ShardRole>,
    target: int,
    have: Seq<bool>,
    roster: Seq<Id32>,
    deferred: Set<Id32>,
    wanting: bool,
    n: int,
)
    requires
        0 <= n <= roles.len() <= usize::MAX,
    ensures
        ({
            let mask = asking_mask(roles, target, have, roster, deferred, wanting);
            let listed = askable_upto(roles, target, have, roster, deferred, wanting, n);
            &&& listed.len() == present(mask.take(n))
            &&& forall|i: int|
                0 <= i < roles.len() ==> listed.contains(#[trigger] (i as usize)) == (i < n
                    && mask[i])
        }),
    decreases n,
{
    let mask = asking_mask(roles, target, have, roster, deferred, wanting);
    let listed = askable_upto(roles, target, have, roster, deferred, wanting, n);
    if n > 0 {
        lemma_askable_exact(roles, target, have, roster, deferred, wanting, n - 1);
        let before = askable_upto(roles, target, have, roster, deferred, wanting, n - 1);
        assert(mask.take(n).drop_last() =~= mask.take(n - 1));
        assert(mask.take(n).last() == mask[n - 1]);
        assert forall|i: int| 0 <= i < roles.len() implies listed.contains(#[trigger] (i as usize))
            == (i < n && mask[i]) by {
            if mask[n - 1] {
                assert(listed == before.push((n - 1) as usize));
                if before.contains(i as usize) {
                    let k = choose|k: int| 0 <= k < before.len() && before[k] == i as usize;
                    assert(listed[k] == i as usize);
                }
                if listed.contains(i as usize) && i != n - 1 {
                    let k = choose|k: int| 0 <= k < listed.len() && listed[k] == i as usize;
                    assert(k < before.len());
                    assert(before[k] == i as usize);
                }
                assert(listed[before.len() as int] == (n - 1) as usize);
            }
        }
    }
}

spec fn one(here: bool) -> int {
    if here {
        1
    } else {
        0
    }
}

proof fn lemma_present_of_five(have: Seq<bool>)
    requires
        have.len() == 5,
    ensures
        present(have) == one(have[0]) + one(have[1]) + one(have[2]) + one(have[3]) + one(have[4]),
{
    reveal_with_fuel(present, 6);
    let a = have.drop_last();
    let b = a.drop_last();
    let c = b.drop_last();
    let d = c.drop_last();
    assert(d.drop_last().len() == 0);
}

/// The plan of a group of five asks for exactly those that may be asked for
/// and whose holders are in good standing, or for all where these are too few.
proof fn lemma_plan_of_five(
    roles: Seq<ShardRole>,
    target: int,
    have: Seq<bool>,
    roster: Seq<Id32>,
    deferred: Set<Id32>,
)
    requires
        roles.len() == 5,
        have.len() == 5,
        0 <= target < 5,
        !have[target],
        present(have) < DATA_SHARDS,
    ensures
        ({
            let asked = plan(roles, target, have, roster, deferred);
            let good = asking_mask(roles, target, have, roster, deferred, false);
            let all = present(good) < DATA_SHARDS - present(have);
            &&& forall|i: int|
                0 <= i < 5 ==> asked.contains(#[trigger] (i as usize)) == (askable(
                    roles,
                    target,
                    have,
                    roster,
                    i,
                ) && (all || good[i]))
            &&& !all ==> asked.len() == present(good)
        }),
{
    let good = asking_mask(roles, target, have, roster, deferred, false);
    let poor = asking_mask(roles, target, have, roster, deferred, true);
    lemma_askable_exact(roles, target, have, roster, deferred, false, 5);
    lemma_askable_exact(roles, target, have, roster, deferred, true, 5);
    assert(good.take(5) =~= good);
    assert(poor.take(5) =~= poor);
    lemma_present_of_five(have);
    lemma_present_of_five(good);
    let preferred = askable_upto(roles, target, have, roster, deferred, false, 5);
    let others = askable_upto(roles, target, have, roster, deferred, true, 5);
    let asked = plan(roles, target, have, roster, deferred);
    let needed = DATA_SHARDS - present(have);
    assert(!good[target]);
    assert(present(good) <= needed + 1);
    if present(good) >= needed {
        assert(asked =~= preferred);
    } else {
        assert(asked == preferred + others);
        assert forall|i: int| 0 <= i < 5 implies asked.contains(#[trigger] (i as usize)) == askable(
            roles,
            target,
            have,
            roster,
            i,
        ) by {
            let index = i as usize;
            if preferred.contains(index) {
                let k = choose|k: int| 0 <= k < preferred.len() && preferred[k] == index;
                assert(asked[k] == index);
            }
            if others.contains(index) {
                let k = choose|k: int| 0 <= k < others.len() && others[k] == index;
                assert(asked[preferred.len() + k] == index);
            }
            if asked.contains(index) {
                let k = choose|k: int| 0 <= k < asked.len() && asked[k] == index;
                if k < preferred.len() {
                    assert(preferred[k] == index);
                } else {
                    assert(others[k - preferred.len()] == index);
                }
            }
        }
    }
}

/// A round of asking in a group of five that does not lead to enough shards:
/// there were enough holders in good standing, and of what was not there
/// exactly the valid shards of these are there now.
proof fn lemma_round_of_five(
    roles: Seq<ShardRole>,
    target: int,
    roster: Seq<Id32>,
    valid: Seq<bool>,
    before: FetchState,
    after: FetchState,
)
    requires
        roles.len() == 5,
        valid.len() == 5,
        before.have.len() == 5,
        0 <= target < 5,
        forall|i: int|
            0 <= i < 5 && #[trigger] valid[i] ==> i != target && roster.contains(
                roles[i].held_by(),
            ),
        forall|i: int| 0 <= i < 5 && #[trigger] before.have[i] ==> valid[i],
        present(valid) >= DATA_SHARDS,
        present(before.have) < DATA_SHARDS,
        present(after.have) < DATA_SHARDS,
        round_goes(roles, target, roster, valid, before, after),
    ensures
        ({
            let good = asking_mask(roles, target, before.have, roster, before.deferred, false);
            let asked = plan(roles, target, before.have, roster, before.deferred);
            &&& after.have.len() == 5
            &&& forall|i: int| 0 <= i < 5 && #[trigger] after.have[i] ==> valid[i]
            &&& forall|i: int|
                0 <= i < 5 ==> (#[trigger] after.have[i]) == (before.have[i] || (good[i]
                    && valid[i]))
            &&& present(good) >= DATA_SHARDS - present(before.have)
            &&& asked.len() == present(good)
            &&& forall|i: int|
                0 <= i < 5 ==> asked.contains(#[trigger] (i as usize)) == good[i]
        }),
{
    let good = asking_mask(roles, target, before.have, roster, before.deferred, false);
    let asked = plan(roles, target, before.have, roster, before.deferred);
    assert(!before.have[target]) by {
        if before.have[target] {
            assert(valid[target]);
        }
    }
    lemma_plan_of_five(roles, target, before.have, roster, before.deferred);
    lemma_present_of_five(valid);
    lemma_present_of_five(after.have);
    assert forall|i: int| 0 <= i < 5 && #[trigger] after.have[i] implies valid[i] by {
        assert(before.have[i] || (asked.contains(i as usize) && valid[i]));
    }
    if present(good) < DATA_SHARDS - present(before.have) {
        assert forall|i: int| 0 <= i < 5 && valid[i] implies #[trigger] after.have[i] by {
            if !before.have[i] {
                assert(askable(roles, target, before.have, roster, i));
                assert(asked.contains(i as usize));
            }
        }
        assert(after.have[0] == valid[0] && after.have[1] == valid[1] && after.have[2] == valid[2]
            && after.have[3] == valid[3] && after.have[4] == valid[4]);
        assert(false);
    }
    assert forall|i: int| 0 <= i < 5 implies (#[trigger] after.have[i]) == (before.have[i] || (
    good[i] && valid[i])) by {
        assert(asked.contains(i as usize) == good[i]);
    }
}

/// Any three valid shards are enough: where of a group of five at least three
/// shards besides the missing one are had by holders in the roster, the
/// attempts that are made lead to enough shards, in whatever order the answers
/// come and whatever was thought of the holders.
pub proof fn any_three_valid_shards_are_enough(
    roles: Seq<ShardRole>,
    target: int,
    roster: Seq<Id32>,
    valid: Seq<bool>,
    states: Seq<FetchState>,
)
    requires
        roles.len() == 5,
        valid.len() == 5,
        0 <= target < 5,
        forall|i: int|
            0 <= i < 5 && #[trigger] valid[i] ==> i != target && roster.contains(
                roles[i].held_by(),
            ),
        present(valid) >= DATA_SHARDS,
        fetch_goes(roles, target, roster, valid, states),
        states.len() == SHARD_FETCH_ATTEMPTS + 1,
    ensures
        present(states.last().have) >= DATA_SHARDS,
{
    let (s0, s1, s2, s3) = (states[0], states[1], states[2], states[3]);
    if present(s3.have) < DATA_SHARDS {
        assert(present(s0.have) < DATA_SHARDS && present(s1.have) < DATA_SHARDS && present(s2.have)
            < DATA_SHARDS);
        lemma_round_of_five(roles, target, roster, valid, s0, s1);
        lemma_round_of_five(roles, target, roster, valid, s1, s2);
        lemma_round_of_five(roles, target, roster, valid, s2, s3);
        let g0 = asking_mask(roles, target, s0.have, roster, s0.deferred, false);
        let g1 = asking_mask(roles, target, s1.have, roster, s1.deferred, false);
        let g2 = asking_mask(roles, target, s2.have, roster, s2.deferred, false);
        lemma_present_of_five(valid);
        lemma_present_of_five(s0.have);
        lemma_present_of_five(s1.have);
        lemma_present_of_five(s2.have);
        lemma_present_of_five(s3.have);
        lemma_present_of_five(g0);
        lemma_present_of_five(g1);
        lemma_present_of_five(g2);
        assert(!g0[target] && !g1[target] && !g2[target] && !valid[target]);
        assert(present(s1.have) == 2);
        assert(present(s2.have) == 2);
        let asked = plan(roles, target, s1.have, roster, s1.deferred);
        assert(present(g1) == 1);
        let x = asked[0] as int;
        plans_ask_for_what_helps(roles, target, s1.have, roster, s1.deferred);
        assert(asked.contains(x as usize));
        assert(g1[x] && !s2.have[x]);
        assert(asked.drop_last() =~= Seq::empty());
        assert(s2.deferred == s1.deferred.insert(roles[x].held_by())) by {
            reveal_with_fuel(standing, 2);
        }
        assert forall|i: int| 0 <= i < 5 implies !(#[trigger] g2[i]) by {
            if g2[i] {
                assert(s2.have[i] == s1.have[i] || (g1[i] && valid[i]));
                assert(askable(roles, target, s1.have, roster, i));
                assert(s1.deferred.contains(roles[i].held_by()) || g1[i]);
                assert(i == x || !g1[i]);
            }
        }
        assert(false);
    }
}

/// There are no fewer shards where all that are there are there too.
pub proof fn lemma_present_grows(less: Seq<bool>, more: Seq<bool>)
    requires
        less.len() == more.len(),
        forall|i: int| 0 <= i < less.len() && #[trigger] less[i] ==> more[i],
    ensures
        present(less) <= present(more),
    decreases less.len(),
{
    if less.len() > 0 {
        let last = less.len() - 1;
        assert(less[last] ==> more[last]);
        assert forall|i: int| 0 <= i < last && #[trigger] less.drop_last()[i] implies
            more.drop_last()[i] by {
            assert(less[i]);
        }
        lemma_present_grows(less.drop_last(), more.drop_last());
    }
}

/// Fewer than three valid shards are never enough, however often they are
/// asked for.
pub proof fn fewer_shards_are_never_enough(
    roles: Seq<ShardRole>,
    target: int,
    roster: Seq<Id32>,
    valid: Seq<bool>,
    states: Seq<FetchState>,
)
    requires
        valid.len() == roles.len(),
        present(valid) < DATA_SHARDS,
        fetch_goes(roles, target, roster, valid, states),
    ensures
        present(states.last().have) < DATA_SHARDS,
        states.last().have.len() == roles.len(),
        forall|i: int| 0 <= i < roles.len() && #[trigger] states.last().have[i] ==> valid[i],
    decreases states.len(),
{
    let last = states.last();
    if states.len() > 1 {
        let earlier = states.drop_last();
        assert(earlier[0] == states[0]);
        assert forall|k: int|
            #![trigger earlier[k]]
            0 <= k < earlier.len() - 1 implies if present(earlier[k].have) < DATA_SHARDS {
            round_goes(roles, target, roster, valid, earlier[k], earlier[k + 1])
        } else {
            earlier[k + 1] == earlier[k]
        } by {
            assert(earlier[k] == states[k]);
            assert(earlier[k + 1] == states[k + 1]);
        }
        fewer_shards_are_never_enough(roles, target, roster, valid, earlier);
        let before = states[states.len() - 2];
        assert(earlier.last() == before);
        assert(round_goes(roles, target, roster, valid, before, last));
    }
    lemma_present_grows(last.have, valid);
}

/// The rebuilding of one shard of a group from what its peers hold.
pub struct ShardFetch {
    pub roles: Vec<ShardRole>,
    pub target: usize,
    pub roster: Vec<Id32>,
    pub have: Vec<bool>,
    pub rounds: u32,
}

/// What the rebuilding of a shard needs next.
#[derive(Debug)]
pub enum FetchStep {
    /// Ask for these shards.
    Ask(Vec<usize>),
    /// Rebuild the shard from those that are there.
    Rebuild,
    Failed,
}

/// Begins to rebuild a shard from what its peers hold; none where the group has no such shard.
pub fn reconstruct_shard_from_peers(
    roles: Vec<ShardRole>,
    target: usize,
    roster: Vec<Id32>,
) -> (fetch: Option<ShardFetch>)
    ensures
        fetch is Some == (target < roles@.len()),
        fetch matches Some(fetch) ==> {
            &&& fetch.wf()
            &&& fetch.roles == roles
            &&& fetch.target == target
            &&& fetch.roster == roster
            &&& fetch.rounds == 0
            &&& forall|i: int| 0 <= i < roles@.len() ==> !(#[trigger] fetch.have@[i])
        },
{
    if target >= roles.len() {
        return None;
    }
    let mut have: Vec<bool> = Vec::new();
    let mut i: usize = 0;
    while i < roles.len()
        invariant
            i <= roles@.len(),
            have@.len() == i,
            forall|k: int| 0 <= k < i ==> !(#[trigger] have@[k]),
        decreases roles@.len() - i,
    {
        have.push(false);
        i += 1;
    }
    Some(ShardFetch { roles, target, roster, have, rounds: 0 })
}

impl ShardFetch {
    pub open spec fn wf(&self) -> bool {
        &&& self.target < self.roles@.len()
        &&& self.have@.len() == self.roles@.len()
        &&& self.rounds <= SHARD_FETCH_ATTEMPTS
    }

    /// What is needed next, with what is known of the holders.
    pub fn next(&self, deferred: &KeySet<Id32>) -> (step: FetchStep)
        requires
            self.wf(),
            deferred.wf(),
        ensures
            match step {
                FetchStep::Rebuild => present(self.have@) >= DATA_SHARDS,
                FetchStep::Failed => present(self.have@) < DATA_SHARDS && self.rounds
                    == SHARD_FETCH_ATTEMPTS,
                FetchStep::Ask(asked) => {
                    &&& present(self.have@) < DATA_SHARDS
                    &&& self.rounds < SHARD_FETCH_ATTEMPTS
                    &&& asked@ == plan(
                        self.roles@,
                        self.target as int,
                        self.have@,
                        self.roster@,
                        deferred@,
                    )
                },
            },
    {
        if enough_shards(&self.have) {
            return FetchStep::Rebuild;
        }
        if self.rounds >= SHARD_FETCH_ATTEMPTS {
            return FetchStep::Failed;
        }
        FetchStep::Ask(
            fetch_plan(&self.roles, self.target, &self.have, &self.roster, deferred),
        )
    }

    /// Takes what a holder gave for a shard; whether there are enough now, so
    /// that the others need not be waited for.
    pub fn received(
        &mut self,
        index: usize,
        length: usize,
        shard_size: u32,
        root: &Id32,
    ) -> (enough: bool)
        requires
            old(self).wf(),
            index < old(self).roles@.len(),
        ensures
            final(self).wf(),
            final(self).roles == old(self).roles,
            final(self).target == old(self).target,
            final(self).roster == old(self).roster,
            final(self).rounds == old(self).rounds,
            final(self).have@ == (if length == shard_size && *root
                == old(self).roles@[index as int].root_of() {
                old(self).have@.update(index as int, true)
            } else {
                old(self).have@
            }),
            enough == (present(final(self).have@) >= DATA_SHARDS),
    {
        let expected = self.roles[index].root();
        if shard_valid(length, shard_size, root, &expected) {
            self.have.set(index, true);
        }
        enough_shards(&self.have)
    }

    /// Ends a round, in which these shards were asked for, and notes the
    /// standing of their holders.
    pub fn round_over(&mut self, deferred: &mut KeySet<Id32>, asked: &Vec<usize>)
        requires
            old(self).wf(),
            old(self).rounds < SHARD_FETCH_ATTEMPTS,
            old(deferred).wf(),
            forall|i: int|
                0 <= i < asked@.len() ==> (#[trigger] asked@[i]) < old(self).roles@.len(),
        ensures
            final(self).wf(),
            final(self).rounds == old(self).rounds + 1,
            final(self).roles == old(self).roles,
            final(self).target == old(self).target,
            final(self).roster == old(self).roster,
            final(self).have == old(self).have,
            final(deferred).wf(),
            final(deferred)@ == standing(
                old(deferred)@,
                old(self).roles@,
                old(self).have@,
                asked@,
            ),
    {
        note_standing(deferred, &self.roles, &self.have, asked);
        self.rounds = self.rounds + 1;
    }
}

/// The shards of a group to ask for over direct connections: all whose holders
/// can be reached and were not found wanting.
pub open spec fn direct_plan(
    roles: Seq<ShardRole>,
    target: int,
    reachable: Seq<Id32>,
    unhealthy: Set<Id32>,
    n: int,
) -> Seq<usize>
    decreases n,
{
    if n <= 0 {
        Seq::empty()
    } else {
        let before = direct_plan(roles, target, reachable, unhealthy, n - 1);
        if n - 1 != target && reachable.contains(roles[n - 1].held_by()) && !unhealthy.contains(
            roles[n - 1].held_by(),
        ) {
            before.push((n - 1) as usize)
        } else {
            before
        }
    }
}

/// The shards of a group to ask for over direct connections.
pub fn direct_fetch_plan(
    roles: &Vec<ShardRole>,
    target: usize,
    reachable: &Vec<Id32>,
    unhealthy: &KeySet<Id32>,
) -> (indexes: Vec<usize>)
    requires
        unhealthy.wf(),
    ensures
        indexes@ == direct_plan(
            roles@,
            target as int,
            reachable@,
            unhealthy@,
            roles@.len() as int,
        ),
{
    let mut indexes: Vec<usize> = Vec::new();
    let mut i: usize = 0;
    while i < roles.len()
        invariant
            i <= roles@.len(),
            unhealthy.wf(),
            indexes@ == direct_plan(roles@, target as int, reachable@, unhealthy@, i as int),
        decreases roles@.len() - i,
    {
        let holder = roles[i].holder();
        if i != target && contains_id(reachable, &holder) && !unhealthy.contains(holder) {
            indexes.push(i);
        }
        i += 1;
    }
    indexes
}

/// A coding group, as far as finding sectors in it goes.
#[derive(Debug)]
pub struct GroupRoles {
    pub id: Id32,
    pub roles: Vec<ShardRole>,
}

/// A place holds a sector.
pub open spec fn holds_sector(role: ShardRole, sector_id: Id32, root: Id32) -> bool {
    role matches ShardRole::Information { sector_id: id, root: actual, .. } && id == sector_id
        && actual == root
}

/// Where a sector stands in the catalog: the first group, and the first place
/// in it.
pub fn locate_sector(groups: &Vec<GroupRoles>, sector_id: &Id32, root: &Id32) -> (place: Option<
    (usize, usize),
>)
    ensures
        match place {
            Some((group, index)) => {
                &&& group < groups@.len()
                &&& index < groups@[group as int].roles@.len()
                &&& holds_sector(groups@[group as int].roles@[index as int], *sector_id, *root)
                &&& forall|g: int, k: int|
                    0 <= g < groups@.len() && 0 <= k < groups@[g].roles@.len() && (g < group || g
                        == group && k < index) ==> !holds_sector(
                        #[trigger] groups@[g].roles@[k],
                        *sector_id,
                        *root,
                    )
            },
            None => forall|g: int, k: int|
                0 <= g < groups@.len() && 0 <= k < groups@[g].roles@.len() ==> !holds_sector(
                    #[trigger] groups@[g].roles@[k],
                    *sector_id,
                    *root,
                ),
        },
{
    let mut g: usize = 0;
    while g < groups.len()
        invariant
            g <= groups@.len(),
            forall|x: int, k: int|
                0 <= x < g && 0 <= k < groups@[x].roles@.len() ==> !holds_sector(
                    #[trigger] groups@[x].roles@[k],
                    *sector_id,
                    *root,
                ),
        decreases groups@.len() - g,
    {
        let roles = &groups[g].roles;
        let mut k: usize = 0;
        while k < roles.len()
            invariant
                g < groups@.len(),
                roles@ == groups@[g as int].roles@,
                k <= roles@.len(),
                forall|x: int, y: int|
                    0 <= x < groups@.len() && 0 <= y < groups@[x].roles@.len() && (x < g || x == g
                        && y < k) ==> !holds_sector(
                        #[trigger] groups@[x].roles@[y],
                        *sector_id,
                        *root,
                    ),
            decreases roles@.len() - k,
        {
            let found = match &roles[k] {
                ShardRole::Information { sector_id: id, root: actual, .. } => id.equals(sector_id)
                    && actual.equals(root),
                ShardRole::Parity { .. } => false,
            };
            if found {
                return Some((g, k));
            }
            k += 1;
        }
        g += 1;
    }
    None
}

/// A shard of a group.
#[derive(Clone, Copy, Debug)]
pub struct ShardKey {
    pub group: Id32,
    pub index: u8,
}

impl Key for ShardKey {
    fn same(self, other: Self) -> (result: bool) {
        self.group.equals(&other.group) && self.index == other.index
    }
}

impl Stored for Vec<u8> {
    type Model = Seq<u8>;

    open spec fn stored(&self) -> Seq<u8> {
        self@
    }

    open spec fn sound(&self) -> bool {
        true
    }
}

/// Why the sectors of a revision cannot be put together.
#[derive(Clone, Copy, Debug, PartialEq, Eq, Structural)]
pub enum RevisionShardError {
    /// A wanted sector stands in the catalog, but its shard was not recovered.
    MissingShard,
    /// A wanted sector does not stand in the catalog.
    MissingSector,
}

/// A wanted sector stands at a place of the catalog.
pub open spec fn wanted_at(groups: Seq<GroupRoles>, wanted: Set<Id32>, g: int, k: int) -> bool {
    &&& 0 <= g < groups.len()
    &&& 0 <= k < groups[g].roles@.len()
    &&& groups[g].roles@[k] matches ShardRole::Information { sector_id, .. } && wanted.contains(
        sector_id,
    )
}

/// The sector at a place.
pub open spec fn sector_at(groups: Seq<GroupRoles>, g: int, k: int) -> Id32 {
    groups[g].roles@[k]->Information_sector_id
}

/// The recovered shard for a place.
pub open spec fn shard_at(groups: Seq<GroupRoles>, g: int, k: int) -> ShardKey {
    ShardKey { group: groups[g].id, index: k as u8 }
}

/// A place comes no later than another.
pub open spec fn not_after(g: int, k: int, x: int, y: int) -> bool {
    g < x || g == x && k <= y
}

/// The bytes of a sector: those of the last place at which it stands.
pub open spec fn ciphertext_from(
    groups: Seq<GroupRoles>,
    wanted: Set<Id32>,
    recovered: Map<ShardKey, Seq<u8>>,
    sector: Id32,
    bytes: Seq<u8>,
) -> bool {
    exists|g: int, k: int|
        {
            &&& #[trigger] wanted_at(groups, wanted, g, k)
            &&& sector_at(groups, g, k) == sector
            &&& bytes == recovered[shard_at(groups, g, k)]
            &&& forall|x: int, y: int| #[trigger]
                wanted_at(groups, wanted, x, y) && sector_at(groups, x, y) == sector ==> not_after(
                    x,
                    y,
                    g,
                    k,
                )
        }
}

/// The bytes of a revision's sectors, from the shards that were recovered.
pub fn local_revision_ciphertexts(
    wanted: &KeySet<Id32>,
    groups: &Vec<GroupRoles>,
    recovered: &Table<ShardKey, Vec<u8>>,
) -> (result: Result<Table<Id32, Vec<u8>>, RevisionShardError>)
    requires
        wanted.wf(),
        recovered.wf(),
        forall|g: int| 0 <= g < groups@.len() ==> (#[trigger] groups@[g]).roles@.len() <= 256,
    ensures
        match result {
            Ok(ciphertexts) => {
                &&& ciphertexts.wf()
                &&& ciphertexts@.dom() == wanted@
                &&& forall|g: int, k: int| #[trigger]
                    wanted_at(groups@, wanted@, g, k) ==> recovered@.contains_key(
                        shard_at(groups@, g, k),
                    )
                &&& forall|sector: Id32| #[trigger]
                    ciphertexts@.contains_key(sector) ==> ciphertext_from(
                        groups@,
                        wanted@,
                        recovered@,
                        sector,
                        ciphertexts@[sector],
                    )
            },
            Err(RevisionShardError::MissingShard) => exists|g: int, k: int| #[trigger]
                wanted_at(groups@, wanted@, g, k) && !recovered@.contains_key(
                    shard_at(groups@, g, k),
                ),
            Err(RevisionShardError::MissingSector) => exists|sector: Id32| #[trigger]
                wanted@.contains(sector) && forall|g: int, k: int| #[trigger]
                wanted_at(groups@, wanted@, g, k) ==> sector_at(groups@, g, k) != sector,
        },
{
    let mut ciphertexts: Table<Id32, Vec<u8>> = Table::new();
    let mut g: usize = 0;
    while g < groups.len()
        invariant
            g <= groups@.len(),
            wanted.wf(),
            recovered.wf(),
            ciphertexts.wf(),
            forall|x: int| 0 <= x < groups@.len() ==> (#[trigger] groups@[x]).roles@.len() <= 256,
            gathered(groups@, wanted@, recovered@, ciphertexts@, g as int, 0),
        decreases groups@.len() - g,
    {
        let roles = &groups[g].roles;
        let mut k: usize = 0;
        while k < roles.len()
            invariant
                g < groups@.len(),
                roles@ == groups@[g as int].roles@,
                roles@.len() <= 256,
                k <= roles@.len(),
                wanted.wf(),
                recovered.wf(),
                ciphertexts.wf(),
                gathered(groups@, wanted@, recovered@, ciphertexts@, g as int, k as int),
            decreases roles@.len() - k,
        {
            let ghost before = ciphertexts@;
            let sector: Option<Id32> = match &roles[k] {
                ShardRole::Information { sector_id, .. } => {
                    if wanted.contains(*sector_id) {
                        Some(*sector_id)
                    } else {
                        None
                    }
                },
                ShardRole::Parity { .. } => None,
            };
            match sector {
                Some(sector) => {
                    assert(wanted_at(groups@, wanted@, g as int, k as int));
                    let key = ShardKey { group: groups[g].id, index: k as u8 };
                    match recovered.get(key) {
                        Some(bytes) => {
                            ciphertexts.insert(sector, crate::dht::copy_of(bytes));
                        },
                        None => {
                            return Err(RevisionShardError::MissingShard);
                        },
                    }
                },
                None => {
                    assert(!wanted_at(groups@, wanted@, g as int, k as int));
                },
            }
            proof {
                lemma_gathered_step(
                    groups@,
                    wanted@,
                    recovered@,
                    before,
                    ciphertexts@,
                    g as int,
                    k as int,
                );
            }
            k += 1;
        }
        proof {
            lemma_gathered_next(groups@, wanted@, recovered@, ciphertexts@, g as int);
        }
        g += 1;
    }
    proof {
        lemma_gathered_all(groups@, wanted@, recovered@, ciphertexts@);
    }
    if ciphertexts.len() != wanted.len() {
        proof {
            if forall|sector: Id32| #[trigger]
                wanted@.contains(sector) ==> ciphertexts@.contains_key(sector) {
                assert(ciphertexts@.dom() =~= wanted@);
            }
            let sector = choose|sector: Id32| #[trigger]
                wanted@.contains(sector) && !ciphertexts@.contains_key(sector);
            assert forall|g: int, k: int| #[trigger]
                wanted_at(groups@, wanted@, g, k) implies sector_at(groups@, g, k) != sector by {
                if sector_at(groups@, g, k) == sector {
                    assert(ciphertexts@.contains_key(sector_at(groups@, g, k)));
                }
            }
        }
        return Err(RevisionShardError::MissingSector);
    }
    proof {
        assert forall|sector: Id32| ciphertexts@.dom().contains(sector) implies wanted@.contains(
            sector,
        ) by {
            assert(ciphertexts@.contains_key(sector));
            let (g, k) = choose|g: int, k: int| #[trigger]
                wanted_at(groups@, wanted@, g, k) && sector_at(groups@, g, k) == sector;
            assert(wanted_at(groups@, wanted@, g, k));
        }
        vstd::set_lib::lemma_subset_equality(ciphertexts@.dom(), wanted@);
    }
    Ok(ciphertexts)
}

/// The places before one are gathered.
spec fn gathered(
    groups: Seq<GroupRoles>,
    wanted: Set<Id32>,
    recovered: Map<ShardKey, Seq<u8>>,
    ciphertexts: Map<Id32, Seq<u8>>,
    g: int,
    k: int,
) -> bool {
    &&& forall|x: int, y: int| #[trigger]
        wanted_at(groups, wanted, x, y) && !not_after(g, k, x, y) ==> recovered.contains_key(
            shard_at(groups, x, y),
        ) && ciphertexts.contains_key(sector_at(groups, x, y))
    &&& forall|sector: Id32| #[trigger]
        ciphertexts.contains_key(sector) ==> from_place(
            groups,
            wanted,
            recovered,
            sector,
            ciphertexts[sector],
            g,
            k,
        )
}

spec fn from_place(
    groups: Seq<GroupRoles>,
    wanted: Set<Id32>,
    recovered: Map<ShardKey, Seq<u8>>,
    sector: Id32,
    bytes: Seq<u8>,
    g: int,
    k: int,
) -> bool {
    exists|x: int, y: int|
        {
            &&& #[trigger] wanted_at(groups, wanted, x, y)
            &&& !not_after(g, k, x, y)
            &&& sector_at(groups, x, y) == sector
            &&& bytes == recovered[shard_at(groups, x, y)]
            &&& forall|a: int, b: int| #[trigger]
                wanted_at(groups, wanted, a, b) && !not_after(g, k, a, b) && sector_at(groups, a, b)
                    == sector ==> not_after(a, b, x, y)
        }
}

proof fn lemma_gathered_step(
    groups: Seq<GroupRoles>,
    wanted: Set<Id32>,
    recovered: Map<ShardKey, Seq<u8>>,
    before: Map<Id32, Seq<u8>>,
    after: Map<Id32, Seq<u8>>,
    g: int,
    k: int,
)
    requires
        0 <= g < groups.len(),
        0 <= k < groups[g].roles@.len(),
        gathered(groups, wanted, recovered, before, g, k),
        if wanted_at(groups, wanted, g, k) {
            recovered.contains_key(shard_at(groups, g, k)) && after == before.insert(
                sector_at(groups, g, k),
                recovered[shard_at(groups, g, k)],
            )
        } else {
            after == before
        },
    ensures
        gathered(groups, wanted, recovered, after, g, k + 1),
{
    assert forall|x: int, y: int| #[trigger] wanted_at(groups, wanted, x, y) && !not_after(
        g,
        k + 1,
        x,
        y,
    ) implies recovered.contains_key(shard_at(groups, x, y)) && after.contains_key(
        sector_at(groups, x, y),
    ) by {
        if not_after(g, k, x, y) {
            assert(x == g && y == k);
        }
    }
    assert forall|sector: Id32| #[trigger] after.contains_key(sector) implies from_place(
        groups,
        wanted,
        recovered,
        sector,
        after[sector],
        g,
        k + 1,
    ) by {
        if wanted_at(groups, wanted, g, k) && sector_at(groups, g, k) == sector {
            assert(wanted_at(groups, wanted, g, k));
            assert(!not_after(g, k + 1, g, k));
            assert forall|a: int, b: int| #[trigger]
                wanted_at(groups, wanted, a, b) && !not_after(g, k + 1, a, b) && sector_at(
                    groups,
                    a,
                    b,
                ) == sector implies not_after(a, b, g, k) by {
            }
        } else {
            assert(before.contains_key(sector));
            assert(from_place(groups, wanted, recovered, sector, before[sector], g, k));
            let (x, y) = choose|x: int, y: int|
                {
                    &&& #[trigger] wanted_at(groups, wanted, x, y)
                    &&& !not_after(g, k, x, y)
                    &&& sector_at(groups, x, y) == sector
                    &&& before[sector] == recovered[shard_at(groups, x, y)]
                    &&& forall|a: int, b: int| #[trigger]
                        wanted_at(groups, wanted, a, b) && !not_after(g, k, a, b) && sector_at(
                            groups,
                            a,
                            b,
                        ) == sector ==> not_after(a, b, x, y)
                };
            assert(wanted_at(groups, wanted, x, y));
            assert forall|a: int, b: int| #[trigger]
                wanted_at(groups, wanted, a, b) && !not_after(g, k + 1, a, b) && sector_at(
                    groups,
                    a,
                    b,
                ) == sector implies not_after(a, b, x, y) by {
                if not_after(g, k, a, b) {
                    assert(a == g && b == k);
                }
            }
        }
    }
}

proof fn lemma_gathered_next(
    groups: Seq<GroupRoles>,
    wanted: Set<Id32>,
    recovered: Map<ShardKey, Seq<u8>>,
    ciphertexts: Map<Id32, Seq<u8>>,
    g: int,
)
    requires
        0 <= g < groups.len(),
        gathered(
            groups,
            wanted,
            recovered,
            ciphertexts,
            g,
            groups[g].roles@.len() as int,
        ),
    ensures
        gathered(groups, wanted, recovered, ciphertexts, g + 1, 0),
{
    let k = groups[g].roles@.len() as int;
    assert forall|x: int, y: int| #[trigger] wanted_at(groups, wanted, x, y) implies not_after(
        g,
        k,
        x,
        y,
    ) == not_after(g + 1, 0, x, y) by {
    }
    assert forall|sector: Id32| #[trigger] ciphertexts.contains_key(sector) implies from_place(
        groups,
        wanted,
        recovered,
        sector,
        ciphertexts[sector],
        g + 1,
        0,
    ) by {
        assert(from_place(groups, wanted, recovered, sector, ciphertexts[sector], g, k));
        let (x, y) = choose|x: int, y: int|
            {
                &&& #[trigger] wanted_at(groups, wanted, x, y)
                &&& !not_after(g, k, x, y)
                &&& sector_at(groups, x, y) == sector
                &&& ciphertexts[sector] == recovered[shard_at(groups, x, y)]
                &&& forall|a: int, b: int| #[trigger]
                    wanted_at(groups, wanted, a, b) && !not_after(g, k, a, b) && sector_at(
                        groups,
                        a,
                        b,
                    ) == sector ==> not_after(a, b, x, y)
            };
        assert(wanted_at(groups, wanted, x, y));
    }
}

proof fn lemma_gathered_all(
    groups: Seq<GroupRoles>,
    wanted: Set<Id32>,
    recovered: Map<ShardKey, Seq<u8>>,
    ciphertexts: Map<Id32, Seq<u8>>,
)
    requires
        gathered(groups, wanted, recovered, ciphertexts, groups.len() as int, 0),
    ensures
        forall|x: int, y: int| #[trigger]
            wanted_at(groups, wanted, x, y) ==> recovered.contains_key(shard_at(groups, x, y))
                && ciphertexts.contains_key(sector_at(groups, x, y)),
        forall|sector: Id32| #[trigger]
            ciphertexts.contains_key(sector) ==> ciphertext_from(
                groups,
                wanted,
                recovered,
                sector,
                ciphertexts[sector],
            ),
        forall|sector: Id32| #[trigger]
            ciphertexts.contains_key(sector) ==> exists|x: int, y: int| #[trigger]
                wanted_at(groups, wanted, x, y) && sector_at(groups, x, y) == sector,
{
    let n = groups.len() as int;
    assert forall|x: int, y: int| #[trigger] wanted_at(groups, wanted, x, y) implies !not_after(
        n,
        0,
        x,
        y,
    ) by {
    }
    assert forall|sector: Id32| #[trigger] ciphertexts.contains_key(sector) implies ciphertext_from(
        groups,
        wanted,
        recovered,
        sector,
        ciphertexts[sector],
    ) && exists|x: int, y: int| #[trigger]
        wanted_at(groups, wanted, x, y) && sector_at(groups, x, y) == sector by {
        assert(from_place(groups, wanted, recovered, sector, ciphertexts[sector], n, 0));
        let (x, y) = choose|x: int, y: int|
            {
                &&& #[trigger] wanted_at(groups, wanted, x, y)
                &&& !not_after(n, 0, x, y)
                &&& sector_at(groups, x, y) == sector
                &&& ciphertexts[sector] == recovered[shard_at(groups, x, y)]
                &&& forall|a: int, b: int| #[trigger]
                    wanted_at(groups, wanted, a, b) && !not_after(n, 0, a, b) && sector_at(
                        groups,
                        a,
                        b,
                    ) == sector ==> not_after(a, b, x, y)
            };
        assert(wanted_at(groups, wanted, x, y));
    }
}

/// A plan asks for shards of holders in good standing, in order: one more than
/// are missing to three, or all of them where they are as many as are missing;
/// where they are fewer, for theirs and then for those of all other holders in
/// the roster. A shard that may be asked for is one that is not there yet, is not
/// the one to rebuild, and has its holder in the roster.
pub proof fn a_plan_prefers_good_holders(
    roles: Seq<ShardRole>,
    target: int,
    have: Seq<bool>,
    roster: Seq<Id32>,
    deferred: Set<Id32>,
    i: int,
)
    requires
        roles.len() <= usize::MAX,
        0 <= i < roles.len(),
    ensures
        ({
            let asked = plan(roles, target, have, roster, deferred);
            let good = askable_upto(
                roles,
                target,
                have,
                roster,
                deferred,
                false,
                roles.len() as int,
            );
            let missing = if present(have) < 3 {
                3 - present(have)
            } else {
                0
            };
            let may = i != target && !have[i] && roster.contains(roles[i].held_by());
            &&& good.contains(i as usize) <==> may && !deferred.contains(roles[i].held_by())
            &&& good.len() < missing ==> (asked.contains(i as usize) <==> may)
            &&& good.len() >= missing ==> asked == good.take(
                if good.len() <= missing {
                    good.len() as int
                } else {
                    missing + 1
                },
            )
        }),
{
    let n = roles.len() as int;
    lemma_askable_exact(roles, target, have, roster, deferred, false, n);
    lemma_askable_exact(roles, target, have, roster, deferred, true, n);
    let good = askable_upto(roles, target, have, roster, deferred, false, n);
    let others = askable_upto(roles, target, have, roster, deferred, true, n);
    let asked = plan(roles, target, have, roster, deferred);
    let missing = if present(have) < 3 {
        3 - present(have)
    } else {
        0
    };
    if good.len() < missing {
        assert(asked == good + others);
        if good.contains(i as usize) {
            let k = choose|k: int| 0 <= k < good.len() && good[k] == i as usize;
            assert(asked[k] == i as usize);
        }
        if others.contains(i as usize) {
            let k = choose|k: int| 0 <= k < others.len() && others[k] == i as usize;
            assert(asked[good.len() + k] == i as usize);
        }
        if asked.contains(i as usize) {
            let k = choose|k: int| 0 <= k < asked.len() && asked[k] == i as usize;
            if k < good.len() {
                assert(good[k] == i as usize);
            } else {
                assert(others[k - good.len()] == i as usize);
            }
        }
    }
}

/// After a round a holder is found wanting if the last shard that it was asked
/// for did not come, and not if it did; of one that was not asked nothing new is
/// known.
pub proof fn standing_follows_the_last_answer(
    deferred: Set<Id32>,
    roles: Seq<ShardRole>,
    have: Seq<bool>,
    asked: Seq<usize>,
    holder: Id32,
    last: int,
)
    ensures
        (forall|k: int|
            0 <= k < asked.len() ==> roles[#[trigger] asked[k] as int].held_by() != holder)
            ==> standing(deferred, roles, have, asked).contains(holder) == deferred.contains(
            holder,
        ),
        0 <= last < asked.len() && roles[asked[last] as int].held_by() == holder && (forall|k: int|
            last < k < asked.len() ==> roles[#[trigger] asked[k] as int].held_by() != holder)
            ==> standing(deferred, roles, have, asked).contains(holder)
            == !have[asked[last] as int],
    decreases asked.len(),
{
    if asked.len() > 0 {
        let fewer = asked.drop_last();
        standing_follows_the_last_answer(deferred, roles, have, fewer, holder, last);
        assert forall|k: int| 0 <= k < fewer.len() implies fewer[k] == #[trigger] asked[k] by {}
        assert(asked.last() == asked[asked.len() - 1]);
        if forall|k: int|
            0 <= k < asked.len() ==> roles[#[trigger] asked[k] as int].held_by() != holder {
            assert forall|k: int| 0 <= k < fewer.len() implies
                roles[#[trigger] fewer[k] as int].held_by() != holder by {
                assert(roles[asked[k] as int].held_by() != holder);
            }
            assert(roles[asked[asked.len() - 1] as int].held_by() != holder);
        }
        if 0 <= last < asked.len() && roles[asked[last] as int].held_by() == holder && (forall|
            k: int,
        |
            last < k < asked.len() ==> roles[#[trigger] asked[k] as int].held_by() != holder) {
            if last < fewer.len() {
                assert forall|k: int| last < k < fewer.len() implies
                    roles[#[trigger] fewer[k] as int].held_by() != holder by {
                    assert(roles[asked[k] as int].held_by() != holder);
                }
                assert(roles[asked[asked.len() - 1] as int].held_by() != holder);
            }
        }
    }
}

/// Over direct connections every shard is asked for whose holder can be reached
/// and was not found wanting, but not the one to rebuild, in order.
pub proof fn a_direct_plan_asks_all_who_can_be_reached(
    roles: Seq<ShardRole>,
    target: int,
    reachable: Seq<Id32>,
    unhealthy: Set<Id32>,
    n: int,
)
    requires
        0 <= n <= roles.len() <= usize::MAX,
    ensures
        forall|k: int|
            0 <= k < direct_plan(roles, target, reachable, unhealthy, n).len()
                ==> #[trigger] direct_plan(roles, target, reachable, unhealthy, n)[k] < n,
        forall|k: int, l: int|
            0 <= k < l < direct_plan(roles, target, reachable, unhealthy, n).len()
                ==> #[trigger] direct_plan(roles, target, reachable, unhealthy, n)[k]
                < #[trigger] direct_plan(roles, target, reachable, unhealthy, n)[l],
        forall|i: int|
            0 <= i < n ==> (direct_plan(roles, target, reachable, unhealthy, n).contains(
                #[trigger] (i as usize),
            ) <==> (i != target && reachable.contains(roles[i].held_by()) && !unhealthy.contains(
                roles[i].held_by(),
            ))),
    decreases n,
{
    if n > 0 {
        a_direct_plan_asks_all_who_can_be_reached(roles, target, reachable, unhealthy, n - 1);
        let before = direct_plan(roles, target, reachable, unhealthy, n - 1);
        let after = direct_plan(roles, target, reachable, unhealthy, n);
        assert forall|k: int| 0 <= k < after.len() implies #[trigger] after[k] < n by {
            if k < before.len() {
                assert(after[k] == before[k]);
            }
        }
        assert forall|k: int, l: int| 0 <= k < l < after.len() implies #[trigger] after[k]
            < #[trigger] after[l] by {
            assert(after[k] == before[k]);
            if l < before.len() {
                assert(after[l] == before[l]);
            }
        }
        let asks = n - 1 != target && reachable.contains(roles[n - 1].held_by())
            && !unhealthy.contains(roles[n - 1].held_by());
        assert(after == if asks {
            before.push((n - 1) as usize)
        } else {
            before
        });
        assert forall|i: int| 0 <= i < n implies (after.contains(#[trigger] (i as usize)) <==> (i
            != target && reachable.contains(roles[i].held_by()) && !unhealthy.contains(
            roles[i].held_by(),
        ))) by {
            if before.contains(i as usize) {
                let m = choose|m: int| 0 <= m < before.len() && before[m] == i as usize;
                assert(after[m] == i as usize);
                assert(before[m] < n - 1);
            }
            if after.contains(i as usize) {
                let m = choose|m: int| 0 <= m < after.len() && after[m] == i as usize;
                if m < before.len() {
                    assert(before[m] == i as usize);
                    assert(before.contains(i as usize));
                } else {
                    assert(i == n - 1);
                }
            }
            if i == n - 1 {
                if asks {
                    assert(after[before.len() as int] == i as usize);
                }
            } else {
                assert(before.contains(i as usize) <==> (i != target && reachable.contains(
                    roles[i].held_by(),
                ) && !unhealthy.contains(roles[i].held_by())));
            }
        }
    }
}

/// Of a group of five, three shards are what it takes, each counted once, and
/// they are tried for three times.
pub proof fn three_of_five_shards_in_three_attempts(have: Seq<bool>)
    requires
        have.len() == 5,
    ensures
        DATA_SHARDS == 3,
        SHARD_FETCH_ATTEMPTS == 3,
        present(have) == (if have[0] {
            1int
        } else {
            0
        }) + (if have[1] {
            1int
        } else {
            0
        }) + (if have[2] {
            1int
        } else {
            0
        }) + (if have[3] {
            1int
        } else {
            0
        }) + (if have[4] {
            1int
        } else {
            0
        }),
{
    lemma_present_of_five(have);
}

/// A sector stands where its number and its root stand together, as information, and
/// nowhere else.
pub proof fn a_sector_stands_where_its_root_does(
    owner: Id32,
    holder: Id32,
    row: u8,
    sector_id: Id32,
    other: Id32,
    root: Id32,
    wrong: Id32,
)
    requires
        other != sector_id,
        wrong != root,
    ensures
        holds_sector(ShardRole::Information { owner, sector_id, root }, sector_id, root),
        !holds_sector(ShardRole::Information { owner, sector_id: other, root }, sector_id, root),
        !holds_sector(ShardRole::Information { owner, sector_id, root: wrong }, sector_id, root),
        !holds_sector(ShardRole::Parity { holder, row, root }, sector_id, root),
{
}

/// The bytes of a wanted sector are those of the shard that was recovered, at its
/// place, of the last group in which it stands.
pub proof fn a_sector_is_read_from_its_last_place(
    groups: Seq<GroupRoles>,
    wanted: Set<Id32>,
    recovered: Map<ShardKey, Seq<u8>>,
    g: int,
    k: int,
    owner: Id32,
    sector: Id32,
    root: Id32,
    bytes: Seq<u8>,
)
    requires
        0 <= g < groups.len(),
        0 <= k < groups[g].roles@.len(),
        groups[g].roles@[k] == (ShardRole::Information { owner, sector_id: sector, root }),
        wanted.contains(sector),
        forall|x: int, y: int|
            #![trigger groups[x].roles@[y]]
            0 <= x < groups.len() && 0 <= y < groups[x].roles@.len() && (x > g || x == g && y > k)
                ==> !(groups[x].roles@[y] matches ShardRole::Information { sector_id, .. }
                && sector_id == sector),
        ciphertext_from(groups, wanted, recovered, sector, bytes),
    ensures
        bytes == recovered[ShardKey { group: groups[g].id, index: k as u8 }],
{
    let (a, b) = choose|a: int, b: int|
        {
            &&& #[trigger] wanted_at(groups, wanted, a, b)
            &&& sector_at(groups, a, b) == sector
            &&& bytes == recovered[shard_at(groups, a, b)]
            &&& forall|x: int, y: int| #[trigger]
                wanted_at(groups, wanted, x, y) && sector_at(groups, x, y) == sector ==> not_after(
                    x,
                    y,
                    a,
                    b,
                )
        };
    assert(wanted_at(groups, wanted, g, k) && sector_at(groups, g, k) == sector);
    assert(not_after(g, k, a, b));
    assert(groups[a].roles@[b] is Information);
    assert(a == g && b == k);
}

} // verus!
