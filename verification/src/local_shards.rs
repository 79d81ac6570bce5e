//! Rebuilding the shards that a node holds of a state.

use crate::commit::{first_place, lemma_first_place_in_range};
use crate::ids::Id32;
use crate::shards::{
    direct_fetch_plan, direct_plan, enough_shards, lemma_present_grows, local_shard, present,
    shard_valid, GroupRoles, ShardRole, DATA_SHARDS,
};
use crate::table::KeySet;
use vstd::prelude::*;

verus! {

/// Who holds the shards of a group.
pub open spec fn holders(roles: Seq<ShardRole>) -> Seq<Id32> {
    roles.map_values(|role: ShardRole| role.held_by())
}

/// A shard that a node holds: its group, its place in the group and its root.
#[derive(Clone, Copy, Debug)]
pub struct LocalTarget {
    pub group: usize,
    pub index: usize,
    pub root: Id32,
}

/// The shards that a node holds: of each group the first, if there are several.
pub open spec fn targets_of(groups: Seq<GroupRoles>, node: Id32) -> Seq<LocalTarget>
    decreases groups.len(),
{
    if groups.len() == 0 {
        Seq::empty()
    } else {
        let before = targets_of(groups.drop_last(), node);
        let roles = groups.last().roles@;
        match first_place(holders(roles), node) {
            Some(index) => before.push(
                LocalTarget {
                    group: (groups.len() - 1) as usize,
                    index: index as usize,
                    root: roles[index].root_of(),
                },
            ),
            None => before,
        }
    }
}

proof fn lemma_first_place_is(list: Seq<Id32>, node: Id32, i: int)
    requires
        0 <= i < list.len(),
        list[i] == node,
        forall|k: int| 0 <= k < i ==> list[k] != node,
    ensures
        first_place(list, node) == Some(i),
    decreases list.len(),
{
    if i < list.len() - 1 {
        lemma_first_place_is(list.drop_last(), node, i);
    } else {
        lemma_first_place_in_range(list.drop_last(), node);
    }
}

fn find_targets(groups: &Vec<GroupRoles>, node: &Id32) -> (targets: Vec<LocalTarget>)
    ensures
        targets@ == targets_of(groups@, *node),
{
    let mut targets: Vec<LocalTarget> = Vec::new();
    let mut i: usize = 0;
    assert(groups@.take(0) =~= Seq::empty());
    while i < groups.len()
        invariant
            i <= groups@.len(),
            targets@ == targets_of(groups@.take(i as int), *node),
        decreases groups@.len() - i,
    {
        assert(groups@.take(i + 1).drop_last() =~= groups@.take(i as int));
        let roles = &groups[i].roles;
        let ghost all = holders(roles@);
        match local_shard(roles, node) {
            Some(index) => {
                proof {
                    assert(all[index as int] == *node);
                    assert forall|k: int| 0 <= k < index implies all[k] != *node by {
                        assert(roles@[k].held_by() != *node);
                    }
                    lemma_first_place_is(all, *node, index as int);
                }
                targets.push(LocalTarget { group: i, index, root: roles[index].root() });
            },
            None => {
                proof {
                    lemma_first_place_in_range(all, *node);
                    if let Some(place) = first_place(all, *node) {
                        assert(roles@[place].held_by() != *node);
                    }
                }
            },
        }
        i += 1;
    }
    assert(groups@.take(i as int) =~= groups@);
    targets
}

/// Why the shards of a node were not rebuilt.
#[derive(Clone, Copy, Debug, PartialEq, Eq, Structural)]
pub enum ShardError {
    /// What was rebuilt is not what the state names.
    WrongRoot,
    /// Something that was asked for was not had.
    Outside,
    /// What came was not what was asked for.
    OutOfOrder,
}

/// How far the rebuilding has come.
#[derive(Clone, Copy, Debug)]
pub enum ShardStage {
    /// Whether this shard is there already is found out.
    Probe(usize),
    Rebuild(usize),
    Keep(usize),
    Done,
    Failed(ShardError),
}

/// What the rebuilding needs next.
#[derive(Clone, Copy, Debug)]
pub enum ShardAction {
    /// Find out whether a shard is there already.
    Probe(LocalTarget),
    Rebuild(LocalTarget),
    Keep(LocalTarget),
    Done,
    Failed(ShardError),
}

/// What came of an action.
#[derive(Clone, Copy, Debug)]
pub enum ShardEvent {
    /// Whether the shard is there already.
    Probed(bool),
    /// The root of what was rebuilt.
    Rebuilt(Id32),
    Kept,
    Failed,
}

/// The rebuilding of the shards that a node holds.
#[derive(Debug)]
pub struct LocalShards {
    targets: Vec<LocalTarget>,
    stage: ShardStage,
}

/// The rebuilding of the shards that a node holds, for contracts.
#[verifier::ext_equal]
pub struct ShardsModel {
    pub targets: Seq<LocalTarget>,
    pub stage: ShardStage,
}

impl ShardsModel {
    pub open spec fn wf(self) -> bool {
        match self.stage {
            ShardStage::Probe(at) => at < self.targets.len(),
            ShardStage::Rebuild(at) => at < self.targets.len(),
            ShardStage::Keep(at) => at < self.targets.len(),
            _ => true,
        }
    }

    /// What is needed next.
    pub open spec fn next(self) -> ShardAction {
        match self.stage {
            ShardStage::Probe(at) => ShardAction::Probe(self.targets[at as int]),
            ShardStage::Rebuild(at) => ShardAction::Rebuild(self.targets[at as int]),
            ShardStage::Keep(at) => ShardAction::Keep(self.targets[at as int]),
            ShardStage::Done => ShardAction::Done,
            ShardStage::Failed(error) => ShardAction::Failed(error),
        }
    }

    /// The stage at a shard, or behind the last.
    pub open spec fn target_stage(self, at: int) -> ShardStage {
        if at < self.targets.len() {
            ShardStage::Probe(at as usize)
        } else {
            ShardStage::Done
        }
    }

    /// The rebuilding after an event. A shard that is there is passed over; one
    /// that was rebuilt is kept only where its root is the one that the state
    /// names.
    pub open spec fn after(self, event: ShardEvent) -> ShardsModel {
        let stage = match (self.stage, event) {
            (ShardStage::Done, _) => self.stage,
            (ShardStage::Failed(_), _) => self.stage,
            (_, ShardEvent::Failed) => ShardStage::Failed(ShardError::Outside),
            (ShardStage::Probe(at), ShardEvent::Probed(true)) => self.target_stage(at + 1),
            (ShardStage::Probe(at), ShardEvent::Probed(false)) => ShardStage::Rebuild(at),
            (ShardStage::Rebuild(at), ShardEvent::Rebuilt(root)) => if root
                == self.targets[at as int].root {
                ShardStage::Keep(at)
            } else {
                ShardStage::Failed(ShardError::WrongRoot)
            },
            (ShardStage::Keep(at), ShardEvent::Kept) => self.target_stage(at + 1),
            _ => ShardStage::Failed(ShardError::OutOfOrder),
        };
        ShardsModel { stage, ..self }
    }
}

/// A rebuilding that has just begun.
pub open spec fn rebuilding_begun(groups: Seq<GroupRoles>, node: Id32) -> ShardsModel {
    let targets = targets_of(groups, node);
    ShardsModel {
        targets,
        stage: if targets.len() > 0 {
            ShardStage::Probe(0)
        } else {
            ShardStage::Done
        },
    }
}

/// Begins to rebuild the shards that a node holds of the groups of a state.
pub fn recover_local_shards_with(groups: &Vec<GroupRoles>, node: &Id32) -> (shards: LocalShards)
    ensures
        shards@ == rebuilding_begun(groups@, *node),
        shards@.wf(),
{
    let targets = find_targets(groups, node);
    let stage = if targets.len() > 0 {
        ShardStage::Probe(0)
    } else {
        ShardStage::Done
    };
    LocalShards { targets, stage }
}

impl LocalShards {
    pub closed spec fn view(&self) -> ShardsModel {
        ShardsModel { targets: self.targets@, stage: self.stage }
    }

    /// What is needed next.
    pub fn next(&self) -> (action: ShardAction)
        requires
            self@.wf(),
        ensures
            action == self@.next(),
    {
        match self.stage {
            ShardStage::Probe(at) => ShardAction::Probe(self.targets[at]),
            ShardStage::Rebuild(at) => ShardAction::Rebuild(self.targets[at]),
            ShardStage::Keep(at) => ShardAction::Keep(self.targets[at]),
            ShardStage::Done => ShardAction::Done,
            ShardStage::Failed(error) => ShardAction::Failed(error),
        }
    }

    fn stage_at(&self, at: usize) -> (stage: ShardStage)
        requires
            at < self@.targets.len(),
        ensures
            stage == self@.target_stage(at + 1),
    {
        assert(at < self.targets.len());
        if at + 1 < self.targets.len() {
            ShardStage::Probe(at + 1)
        } else {
            ShardStage::Done
        }
    }

    /// Takes what came of the last action.
    pub fn take(&mut self, event: ShardEvent)
        requires
            old(self)@.wf(),
        ensures
            final(self)@ == old(self)@.after(event),
            final(self)@.wf(),
    {
        let stage = match (self.stage, event) {
            (ShardStage::Done, _) => self.stage,
            (ShardStage::Failed(_), _) => self.stage,
            (_, ShardEvent::Failed) => ShardStage::Failed(ShardError::Outside),
            (ShardStage::Probe(at), ShardEvent::Probed(true)) => self.stage_at(at),
            (ShardStage::Probe(at), ShardEvent::Probed(false)) => ShardStage::Rebuild(at),
            (ShardStage::Rebuild(at), ShardEvent::Rebuilt(root)) => if root.equals(
                &self.targets[at].root,
            ) {
                ShardStage::Keep(at)
            } else {
                ShardStage::Failed(ShardError::WrongRoot)
            },
            (ShardStage::Keep(at), ShardEvent::Kept) => self.stage_at(at),
            _ => ShardStage::Failed(ShardError::OutOfOrder),
        };
        self.stage = stage;
    }
}

/// Nothing is kept but what has the root that the state names.
pub proof fn only_named_shards_are_kept(shards: ShardsModel, event: ShardEvent)
    requires
        shards.wf(),
    ensures
        match shards.after(event).next() {
            ShardAction::Keep(target) => shards.next() == ShardAction::Keep(target) || (
            shards.next() == ShardAction::Rebuild(target) && event == ShardEvent::Rebuilt(
                target.root,
            )),
            _ => true,
        },
{
}

/// What is there already is not rebuilt: a shard is rebuilt only where the node
/// was asked for it and did not have it. So a recovery that is begun again goes
/// on where the last one stopped.
pub proof fn what_is_there_is_not_rebuilt(shards: ShardsModel, event: ShardEvent)
    requires
        shards.wf(),
    ensures
        match shards.after(event).next() {
            ShardAction::Rebuild(target) => shards.next() == ShardAction::Probe(target) && event
                == ShardEvent::Probed(false),
            _ => true,
        },
{
}

/// The fetching of the shards of a group over direct connections.
pub struct DirectFetch {
    roles: Vec<ShardRole>,
    shard_size: u32,
    plan: Vec<usize>,
    answered: usize,
    have: Vec<bool>,
}

/// The fetching of the shards of a group, for contracts.
#[verifier::ext_equal]
pub struct DirectModel {
    pub roles: Seq<ShardRole>,
    pub shard_size: u32,
    /// The shards that are asked for.
    pub plan: Seq<usize>,
    /// How many of them were answered.
    pub answered: nat,
    /// The shards that are there.
    pub have: Seq<bool>,
}

/// What the fetching needs next.
#[derive(Clone, Copy, Debug, PartialEq, Eq, Structural)]
pub enum DirectStep {
    /// Ask for a shard.
    Ask(usize),
    /// Rebuild the missing ones.
    Rebuild,
    TooFew,
}

impl DirectModel {
    pub open spec fn wf(self) -> bool {
        &&& self.have.len() == self.roles.len()
        &&& self.answered <= self.plan.len()
        &&& forall|i: int|
            0 <= i < self.plan.len() ==> #[trigger] self.plan[i] < self.roles.len()
    }

    /// What is needed next.
    pub open spec fn next(self) -> DirectStep {
        if present(self.have) >= DATA_SHARDS {
            DirectStep::Rebuild
        } else if self.answered < self.plan.len() {
            DirectStep::Ask(self.plan[self.answered as int])
        } else {
            DirectStep::TooFew
        }
    }

    /// What a holder gave is the shard that was asked for.
    pub open spec fn fits(self, shard: usize, given: Option<(usize, Id32)>) -> bool {
        given matches Some((length, root)) && length == self.shard_size && root
            == self.roles[shard as int].root_of()
    }

    /// The fetching after an answer.
    pub open spec fn after(self, given: Option<(usize, Id32)>) -> DirectModel {
        let shard = self.plan[self.answered as int];
        DirectModel {
            answered: self.answered + 1,
            have: if self.fits(shard, given) {
                self.have.update(shard as int, true)
            } else {
                self.have
            },
            ..self
        }
    }
}

/// No shard is there.
pub open spec fn none_there(n: nat) -> Seq<bool> {
    Seq::new(n, |i: int| false)
}

proof fn lemma_direct_plan_in_range(
    roles: Seq<ShardRole>,
    target: int,
    reachable: Seq<Id32>,
    unhealthy: Set<Id32>,
    n: int,
)
    requires
        0 <= n <= roles.len() <= usize::MAX,
    ensures
        forall|i: int|
            0 <= i < direct_plan(roles, target, reachable, unhealthy, n).len() ==> (
            #[trigger] direct_plan(roles, target, reachable, unhealthy, n)[i]) < n,
    decreases n,
{
    if n > 0 {
        lemma_direct_plan_in_range(roles, target, reachable, unhealthy, n - 1);
        let before = direct_plan(roles, target, reachable, unhealthy, n - 1);
        let after = direct_plan(roles, target, reachable, unhealthy, n);
        assert forall|i: int| 0 <= i < after.len() implies (#[trigger] after[i]) < n by {
            if i < before.len() {
                assert(after[i] == before[i]);
            }
        }
    }
}

impl DirectFetch {
    pub closed spec fn view(&self) -> DirectModel {
        DirectModel {
            roles: self.roles@,
            shard_size: self.shard_size,
            plan: self.plan@,
            answered: self.answered as nat,
            have: self.have@,
        }
    }

    /// Begins to fetch the shards of a group but one, from holders that can be
    /// reached and were not found wanting.
    pub fn new(
        roles: Vec<ShardRole>,
        shard_size: u32,
        target: usize,
        reachable: &Vec<Id32>,
        unhealthy: &KeySet<Id32>,
    ) -> (fetch: Self)
        requires
            unhealthy.wf(),
        ensures
            fetch@ == (DirectModel {
                roles: roles@,
                shard_size,
                plan: direct_plan(
                    roles@,
                    target as int,
                    reachable@,
                    unhealthy@,
                    roles@.len() as int,
                ),
                answered: 0,
                have: none_there(roles@.len()),
            }),
            fetch@.wf(),
    {
        let plan = direct_fetch_plan(&roles, target, reachable, unhealthy);
        let mut have: Vec<bool> = Vec::new();
        let mut i: usize = 0;
        while i < roles.len()
            invariant
                i <= roles@.len(),
                have@ == none_there(i as nat),
            decreases roles@.len() - i,
        {
            have.push(false);
            assert(have@ =~= none_there((i + 1) as nat));
            i += 1;
        }
        proof {
            lemma_direct_plan_in_range(
                roles@,
                target as int,
                reachable@,
                unhealthy@,
                roles@.len() as int,
            );
        }
        DirectFetch { roles, shard_size, plan, answered: 0, have }
    }

    /// What is needed next.
    pub fn next(&self) -> (step: DirectStep)
        requires
            self@.wf(),
        ensures
            step == self@.next(),
    {
        if enough_shards(&self.have) {
            DirectStep::Rebuild
        } else if self.answered < self.plan.len() {
            DirectStep::Ask(self.plan[self.answered])
        } else {
            DirectStep::TooFew
        }
    }

    /// Takes what the holder of the shard that was asked for gave, and notes a
    /// holder that was found wanting.
    pub fn take(&mut self, unhealthy: &mut KeySet<Id32>, given: Option<(usize, Id32)>)
        requires
            old(self)@.wf(),
            old(self)@.next() is Ask,
            old(unhealthy).wf(),
        ensures
            final(self)@ == old(self)@.after(given),
            final(self)@.wf(),
            final(unhealthy).wf(),
            final(unhealthy)@ == ({
                let shard = old(self)@.next()->Ask_0;
                if old(self)@.fits(shard, given) {
                    old(unhealthy)@
                } else {
                    old(unhealthy)@.insert(old(self)@.roles[shard as int].held_by())
                }
            }),
    {
        assert(self.answered < self.plan.len());
        let shard: usize = self.plan[self.answered];
        let role = self.roles[shard];
        let fits = match given {
            Some((length, root)) => shard_valid(length, self.shard_size, &root, &role.root()),
            None => false,
        };
        if fits {
            self.have.set(shard, true);
        } else {
            unhealthy.insert(role.holder());
        }
        self.answered = self.answered + 1;
    }
}

/// The fetching once it has ended, where asking for a shard gives this.
pub open spec fn fetched(fetch: DirectModel, given: Seq<Option<(usize, Id32)>>) -> DirectModel
    decreases fetch.plan.len() - fetch.answered,
{
    match fetch.next() {
        DirectStep::Ask(shard) => if fetch.answered < fetch.plan.len() {
            fetched(fetch.after(given[shard as int]), given)
        } else {
            fetch
        },
        _ => fetch,
    }
}

/// The shards that are asked for and had.
pub open spec fn had(fetch: DirectModel, given: Seq<Option<(usize, Id32)>>) -> Seq<bool> {
    Seq::new(
        fetch.roles.len(),
        |i: int| fetch.plan.contains(i as usize) && fetch.fits(i as usize, given[i]),
    )
}

/// Shards are fetched over direct connections until three are there: this ends
/// well if and only if three of those that are asked for are had.
pub proof fn three_shards_are_fetched_where_they_are_had(
    fetch: DirectModel,
    given: Seq<Option<(usize, Id32)>>,
)
    requires
        fetch.wf(),
        fetch.roles.len() <= usize::MAX,
        fetch.answered == 0,
        fetch.have == none_there(fetch.roles.len()),
        given.len() == fetch.roles.len(),
    ensures
        fetched(fetch, given).next() == (if present(had(fetch, given)) >= DATA_SHARDS {
            DirectStep::Rebuild
        } else {
            DirectStep::TooFew
        }),
{
    lemma_fetched(fetch, given);
}

proof fn lemma_fetched(fetch: DirectModel, given: Seq<Option<(usize, Id32)>>)
    requires
        fetch.wf(),
        fetch.roles.len() <= usize::MAX,
        given.len() == fetch.roles.len(),
        forall|i: int|
            0 <= i < fetch.roles.len() && #[trigger] fetch.have[i] ==> had(fetch, given)[i],
        forall|k: int|
            0 <= k < fetch.answered && fetch.fits(
                #[trigger] fetch.plan[k],
                given[fetch.plan[k] as int],
            ) ==> fetch.have[fetch.plan[k] as int],
    ensures
        fetched(fetch, given).next() == (if present(had(fetch, given)) >= DATA_SHARDS {
            DirectStep::Rebuild
        } else {
            DirectStep::TooFew
        }),
    decreases fetch.plan.len() - fetch.answered,
{
    let all = had(fetch, given);
    lemma_present_grows(fetch.have, all);
    if present(fetch.have) < DATA_SHARDS {
        if fetch.answered < fetch.plan.len() {
            let shard = fetch.plan[fetch.answered as int];
            let after = fetch.after(given[shard as int]);
            assert(fetch.plan.contains(shard));
            assert(had(after, given) =~= all);
            assert forall|i: int| 0 <= i < after.roles.len() && #[trigger] after.have[i] implies had(
                after,
                given,
            )[i] by {
                if i == shard && fetch.fits(shard, given[shard as int]) {
                    assert(i as usize == shard);
                } else {
                    assert(fetch.have[i]);
                }
            }
            assert forall|k: int|
                0 <= k < after.answered && after.fits(
                    #[trigger] after.plan[k],
                    given[after.plan[k] as int],
                ) implies after.have[after.plan[k] as int] by {
                if k < fetch.answered {
                    assert(fetch.have[fetch.plan[k] as int]);
                }
            }
            lemma_fetched(after, given);
        } else {
            assert forall|i: int| 0 <= i < all.len() && #[trigger] all[i] implies fetch.have[i] by {
                let k = choose|k: int|
                    0 <= k < fetch.plan.len() && #[trigger] fetch.plan[k] == i as usize;
                assert(fetch.fits(fetch.plan[k], given[fetch.plan[k] as int]));
            }
            lemma_present_grows(all, fetch.have);
        }
    }
}

/// The shards that a node rebuilds are one of each group in which it holds any:
/// the first that it holds there, with the root that the group names for it. No
/// group is passed over.
pub proof fn every_group_of_the_node_is_a_target(groups: Seq<GroupRoles>, node: Id32)
    requires
        groups.len() <= usize::MAX,
        forall|g: int|
            0 <= g < groups.len() ==> (#[trigger] groups[g]).roles@.len() <= usize::MAX,
    ensures
        forall|t: int|
            0 <= t < targets_of(groups, node).len() ==> {
                let target = #[trigger] targets_of(groups, node)[t];
                &&& target.group < groups.len()
                &&& target.index < groups[target.group as int].roles@.len()
                &&& groups[target.group as int].roles@[target.index as int].held_by() == node
                &&& target.root == groups[target.group as int].roles@[target.index as int].root_of()
                &&& forall|k: int|
                    0 <= k < target.index ==> (
                    #[trigger] groups[target.group as int].roles@[k]).held_by() != node
            },
        forall|a: int, b: int|
            0 <= a < b < targets_of(groups, node).len() ==> (#[trigger] targets_of(
                groups,
                node,
            )[a]).group < (#[trigger] targets_of(groups, node)[b]).group,
        forall|g: int, k: int|
            0 <= g < groups.len() && 0 <= k < groups[g].roles@.len() && (
            #[trigger] groups[g].roles@[k]).held_by() == node ==> exists|t: int|
                0 <= t < targets_of(groups, node).len() && (#[trigger] targets_of(
                    groups,
                    node,
                )[t]).group == g,
    decreases groups.len(),
{
    if groups.len() > 0 {
        let fewer = groups.drop_last();
        let last = groups.len() - 1;
        assert forall|g: int| 0 <= g < fewer.len() implies (#[trigger] fewer[g]).roles@.len()
            <= usize::MAX by {
            assert(fewer[g] == groups[g]);
        }
        every_group_of_the_node_is_a_target(fewer, node);
        let before = targets_of(fewer, node);
        let after = targets_of(groups, node);
        let roles = groups.last().roles@;
        let all = holders(roles);
        lemma_first_place_in_range(all, node);
        assert forall|t: int| 0 <= t < after.len() implies {
            let target = #[trigger] after[t];
            &&& target.group < groups.len()
            &&& target.index < groups[target.group as int].roles@.len()
            &&& groups[target.group as int].roles@[target.index as int].held_by() == node
            &&& target.root == groups[target.group as int].roles@[target.index as int].root_of()
            &&& forall|k: int|
                0 <= k < target.index ==> (
                #[trigger] groups[target.group as int].roles@[k]).held_by() != node
        } by {
            if t < before.len() {
                assert(after[t] == before[t]);
                assert(fewer[before[t].group as int] == groups[before[t].group as int]);
            } else {
                let index = first_place(all, node)->0;
                assert(groups[last].roles@[index].held_by() == node);
                assert forall|k: int| 0 <= k < index implies (
                #[trigger] groups[last].roles@[k]).held_by() != node by {
                    if groups[last].roles@[k].held_by() == node {
                        assert(all[k] == node);
                        lemma_none_before(all, node, k);
                    }
                }
            }
        }
        assert forall|a: int, b: int| 0 <= a < b < after.len() implies (#[trigger] after[a]).group
            < (#[trigger] after[b]).group by {
            assert(after[a] == before[a]);
            if b < before.len() {
                assert(after[b] == before[b]);
            }
        }
        assert forall|g: int, k: int|
            0 <= g < groups.len() && 0 <= k < groups[g].roles@.len() && (
            #[trigger] groups[g].roles@[k]).held_by() == node implies exists|t: int|
            0 <= t < after.len() && (#[trigger] after[t]).group == g by {
            if g < last {
                assert(fewer[g].roles@[k].held_by() == node);
                let t = choose|t: int| 0 <= t < before.len() && (#[trigger] before[t]).group == g;
                assert(after[t].group == g);
            } else {
                assert(all[k] == node);
                lemma_none_before(all, node, k);
                assert(after[before.len() as int].group == g);
            }
        }
    }
}

/// A node in a list has a first place there, not behind any of its places.
proof fn lemma_none_before(list: Seq<Id32>, node: Id32, k: int)
    requires
        0 <= k < list.len(),
        list[k] == node,
    ensures
        first_place(list, node) is Some,
        first_place(list, node)->0 <= k,
    decreases list.len(),
{
    if k < list.len() - 1 {
        lemma_none_before(list.drop_last(), node, k);
    } else {
        lemma_first_place_in_range(list, node);
    }
}

/// Each shard is looked for in its turn. One that is there needs nothing; any
/// other is rebuilt, and kept if it has the root that its group names. Then the
/// next is looked for, and behind the last the rebuilding is done.
pub proof fn each_shard_is_looked_for_rebuilt_and_kept(
    shards: ShardsModel,
    groups: Seq<GroupRoles>,
    node: Id32,
    at: usize,
    root: Id32,
)
    requires
        shards.wf(),
        shards.targets.len() <= usize::MAX,
    ensures
        ({
            let begun = rebuilding_begun(groups, node);
            &&& begun.targets == targets_of(groups, node)
            &&& if begun.targets.len() == 0 {
                begun.next() is Done
            } else {
                begun.stage == ShardStage::Probe(0) && begun.next() == ShardAction::Probe(
                    begun.targets[0],
                )
            }
        }),
        shards.stage == ShardStage::Probe(at) ==> ({
            let target = shards.targets[at as int];
            let there = shards.after(ShardEvent::Probed(true));
            let lost = shards.after(ShardEvent::Probed(false));
            let rebuilt = lost.after(ShardEvent::Rebuilt(root));
            let kept = rebuilt.after(ShardEvent::Kept);
            let next = if at + 1 < shards.targets.len() {
                ShardAction::Probe(shards.targets[at + 1])
            } else {
                ShardAction::Done
            };
            &&& shards.next() == ShardAction::Probe(target)
            &&& there.next() == next
            &&& lost.next() == ShardAction::Rebuild(target)
            &&& root != target.root ==> rebuilt.next() == ShardAction::Failed(ShardError::WrongRoot)
            &&& root == target.root ==> rebuilt.next() == ShardAction::Keep(target) && kept.next()
                == next
        }),
{
}

/// What fails, and what was not asked for, ends a rebuilding for good.
pub proof fn a_rebuilding_takes_only_what_it_asked_for(shards: ShardsModel, event: ShardEvent)
    requires
        shards.wf(),
    ensures
        shards.next() is Done || shards.next() is Failed ==> shards.after(event) == shards,
        !(shards.next() is Done || shards.next() is Failed) && event is Failed ==> shards.after(
            event,
        ).next() == ShardAction::Failed(ShardError::Outside),
        !(event is Failed) && (match shards.next() {
            ShardAction::Probe(_) => !(event is Probed),
            ShardAction::Rebuild(_) => !(event is Rebuilt),
            ShardAction::Keep(_) => !(event is Kept),
            _ => false,
        }) ==> shards.after(event).next() == ShardAction::Failed(ShardError::OutOfOrder),
{
}

} // verus!
