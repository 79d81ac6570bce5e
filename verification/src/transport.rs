//! Which transport is used to reach each peer: the choice of a tier, dials,
//! fallbacks and promotions.

use crate::address::{sorted_peers, AddressSet, Component, Multiaddr, PeerId, PeerSet};
use crate::links::TRANSPORT_PROMOTION_GRACE_MILLIS;
use crate::loop_state::{
    common_path, first_path, uniform, Action, ActionModel, LoopModel, P2pEventLoop, PolicyDial,
    PolicyDialKind, TransportPromotion,
};
use crate::ordered::models;
use crate::policy::{
    path_of_address, path_preference_rank, path_rank, policy_address_tiers, tier_members, views,
    P2pPath, PolicyTiers,
};
use crate::tor::TorMode;
use vstd::prelude::*;

verus! {

impl LoopModel {
    /// The addresses of the peer at a tier.
    pub open spec fn members(self, peer: PeerId, tier: u8) -> Set<Seq<Component>> {
        tier_members(self.mode(), self.book.retained(peer), tier)
    }

    /// The node knows addresses of the peer at a tier.
    pub open spec fn addressed(self, peer: PeerId, tier: u8) -> bool {
        self.members(peer, tier) != Set::<Seq<Component>>::empty()
    }

    /// The tier that takes the place of one that cannot be had: the next that
    /// has addresses, else the first that has any, else the best at which
    /// there is a healthy connection.
    pub open spec fn substitute(self, peer: PeerId, requested: u8) -> u8 {
        if requested <= 0 && self.addressed(peer, 0) {
            0
        } else if requested <= 1 && self.addressed(peer, 1) {
            1
        } else if requested <= 2 && self.addressed(peer, 2) {
            2
        } else if self.addressed(peer, 0) {
            0
        } else if self.addressed(peer, 1) {
            1
        } else if self.addressed(peer, 2) {
            2
        } else {
            match self.links.best_tier(peer) {
                Some(tier) => tier,
                None => requested,
            }
        }
    }

    /// The tier to use for the peer: the selected one, where there are
    /// addresses, a healthy connection or a dial at it.
    pub open spec fn usable_tier(self, peer: PeerId) -> u8 {
        let requested = self.tier(peer);
        if self.addressed(peer, requested) || self.links.healthy_at(peer, requested, None)
            || self.dial_exists(peer, requested) {
            requested
        } else {
            self.substitute(peer, requested)
        }
    }

    /// The addresses that the transport knows of a peer.
    pub open spec fn installed_for(self, peer: PeerId) -> Set<Seq<Component>> {
        if self.installed.contains_key(peer) {
            self.installed[peer]
        } else {
            Set::empty()
        }
    }

    /// The transport is told to know just these addresses of a peer.
    pub open spec fn readdressed(self, peer: PeerId, desired: Set<Seq<Component>>) -> LoopModel {
        let previous = self.installed_for(peer);
        LoopModel {
            installed: if desired == Set::<Seq<Component>>::empty() {
                self.installed.remove(peer)
            } else {
                self.installed.insert(peer, desired)
            },
            actions: if previous == desired {
                self.actions
            } else {
                self.actions.push(
                    ActionModel::Readdress {
                        peer,
                        removed: previous.difference(desired),
                        added: desired.difference(previous),
                    },
                )
            },
            ..self
        }
    }

    /// The choice for a peer follows what is known of it: the tier, and the
    /// addresses of that tier.
    #[verifier::opaque]
    pub open spec fn reconciled(self, peer: PeerId) -> LoopModel {
        let tier = self.usable_tier(peer);
        self.with_tier(peer, tier).readdressed(peer, self.members(peer, tier)).selection_forgotten(
            peer,
        )
    }

    /// A tier is selected for a peer.
    pub open spec fn reselected(self, peer: PeerId, tier: u8) -> LoopModel {
        self.with_tier(peer, tier).reconciled(peer)
    }

    /// A peer is dialled at a tier, unless there is no address or a dial of it
    /// is under way.
    pub open spec fn dialled(
        self,
        peer: PeerId,
        tier: u8,
        addresses: Set<Seq<Component>>,
        kind: PolicyDialKind,
    ) -> LoopModel {
        if addresses == Set::<Seq<Component>>::empty() || self.dial_exists(peer, tier) {
            self
        } else {
            LoopModel {
                dials: self.dials.insert(
                    self.next_connection,
                    (PolicyDial { peer, tier, path: common_path(addresses), kind }),
                ),
                next_connection: self.next_connection.wrapping_add(1),
                actions: self.actions.push(
                    ActionModel::Dial { connection: self.next_connection, peer, addresses },
                ),
                ..self
            }
        }
    }

    /// A peer is dialled at its selected tier if there is need.
    #[verifier::opaque]
    pub open spec fn ensured(self, peer: PeerId) -> LoopModel {
        if self.links.healthy_at(peer, self.tier(peer), None) {
            self
        } else {
            self.dialled(
                peer,
                self.tier(peer),
                self.installed_for(peer),
                PolicyDialKind::Selected,
            )
        }
    }

    /// The tier of the peer's pending promotion.
    pub open spec fn promotion_tier(self, peer: PeerId) -> Option<u8> {
        if self.promotions.contains_key(peer) {
            Some(self.promotions[peer].tier)
        } else {
            None
        }
    }

    /// The connections to the peer that the policy does not want are retired.
    #[verifier::opaque]
    pub open spec fn non_policy_retired(self, peer: PeerId, now: u64) -> LoopModel {
        LoopModel {
            links: self.links.non_policy_retired(
                peer,
                self.tier(peer),
                self.promotion_tier(peer),
                now,
            ),
            ..self
        }
    }

    /// The first tier behind the selected one at which there are addresses or
    /// a healthy connection.
    pub open spec fn next_tier(self, peer: PeerId) -> Option<u8> {
        let current = self.tier(peer);
        if current < 1 && (self.addressed(peer, 1) || self.links.healthy_at(peer, 1, None)) {
            Some(1)
        } else if current < 2 && (self.addressed(peer, 2) || self.links.healthy_at(
            peer,
            2,
            None,
        )) {
            Some(2)
        } else {
            None
        }
    }

    /// The node falls back to the next tier for a peer, where there is one.
    #[verifier::opaque]
    pub open spec fn fallen_back(self, peer: PeerId, now: u64) -> LoopModel {
        match self.next_tier(peer) {
            None => self,
            Some(next) => {
                let moved = LoopModel {
                    promotions: self.promotions.remove(peer),
                    ..self
                }.reselected(peer, next);
                if moved.links.healthy_at(peer, next, None) {
                    moved.non_policy_retired(peer, now)
                } else {
                    moved.ensured(peer)
                }
            },
        }
    }

    /// A tier better than the selected one is noted, to be selected later; a
    /// better one takes the place of another.
    #[verifier::opaque]
    pub open spec fn promoted(self, peer: PeerId, tier: u8, now: u64) -> LoopModel {
        if tier >= self.tier(peer) || (self.promotions.contains_key(peer)
            && self.promotions[peer].tier <= tier) {
            self
        } else {
            LoopModel {
                promotions: self.promotions.insert(
                    peer,
                    (TransportPromotion {
                        tier,
                        deadline: now.saturating_add(TRANSPORT_PROMOTION_GRACE_MILLIS),
                    }),
                ),
                ..self
            }
        }
    }

    /// One tier before the current one is tried for a peer.
    #[verifier::opaque]
    pub open spec fn tier_tried(
        self,
        peer: PeerId,
        tier: u8,
        current: u8,
        now: u64,
    ) -> LoopModel {
        if tier >= current || !self.addressed(peer, tier) {
            self
        } else if self.links.healthy_at(peer, tier, None) {
            self.promoted(peer, tier, now)
        } else {
            self.dialled(peer, tier, self.members(peer, tier), PolicyDialKind::PreferredProbe)
        }
    }

    /// The tiers that are preferred to the selected one are tried for a peer.
    #[verifier::opaque]
    pub open spec fn preferred_tried(self, peer: PeerId, now: u64) -> LoopModel {
        let current = self.tier(peer);
        self.ensured(peer).tier_tried(peer, 0, current, now).tier_tried(
            peer,
            1,
            current,
            now,
        ).tier_tried(peer, 2, current, now)
    }

    /// The preferred tiers are tried for peers, one after the other.
    pub open spec fn each_preferred_tried(self, peers: Seq<PeerId>, now: u64) -> LoopModel
        decreases peers.len(),
    {
        if peers.len() == 0 {
            self
        } else {
            self.each_preferred_tried(peers.drop_last(), now).preferred_tried(peers.last(), now)
        }
    }

    /// The peers to which the node is connected or for which it does not use
    /// the first tier.
    pub open spec fn choosing_peers(self) -> Set<PeerId> {
        Set::new(|peer: PeerId| self.tiers.contains_key(peer) || self.links.connected(peer))
    }

    /// A connection was established or found to lead elsewhere than thought.
    #[verifier::opaque]
    pub open spec fn observed(self, peer: PeerId, connection: u64, now: u64) -> LoopModel {
        let start = self.reconciled(peer);
        if !start.links.paths.contains_key(connection) {
            start
        } else {
            let tier = path_rank(self.mode(), start.links.paths[connection].path);
            let selected = start.tier(peer);
            (if tier < selected {
                start.promoted(peer, tier, now)
            } else if tier > selected {
                start.ensured(peer)
            } else {
                start
            }).non_policy_retired(peer, now)
        }
    }

    /// A connection to the peer was closed: the selected tier is restored.
    #[verifier::opaque]
    pub open spec fn transport_restored(
        self,
        peer: PeerId,
        closed_path: Option<P2pPath>,
        now: u64,
    ) -> LoopModel {
        let selected = self.tier(peer);
        if self.links.healthy_at(peer, selected, None) {
            self
        } else {
            let eligible = LoopModel { links: self.links.restored(peer), ..self };
            let best = eligible.links.best_tier(peer);
            if best is Some && best->0 <= selected {
                (if best->0 < selected {
                    LoopModel {
                        promotions: eligible.promotions.remove(peer),
                        ..eligible
                    }.reselected(peer, best->0)
                } else {
                    eligible
                }).non_policy_retired(peer, now)
            } else if closed_path is Some && path_rank(self.mode(), closed_path->0) == selected
                && eligible.next_tier(peer) is Some {
                eligible.fallen_back(peer, now)
            } else {
                eligible.reconciled(peer).ensured(peer)
            }
        }
    }
}

/// The addresses of a tier all lead to the same kind of path.
pub proof fn lemma_tier_uniform(mode: TorMode, addresses: Set<Seq<Component>>, tier: u8)
    ensures
        uniform(tier_members(mode, addresses, tier)),
{
}

/// There are three tiers.
pub proof fn lemma_three_tiers(mode: TorMode, addresses: Set<Seq<Component>>, tier: u8)
    requires
        tier > 2,
    ensures
        tier_members(mode, addresses, tier) == Set::<Seq<Component>>::empty(),
{
    assert(tier_members(mode, addresses, tier) =~= Set::empty());
}

/// The addresses of one set that are not in another.
pub fn without(addresses: &AddressSet, others: &AddressSet) -> (rest: AddressSet)
    requires
        addresses.wf(),
        others.wf(),
    ensures
        rest.wf(),
        rest@ == addresses@.difference(others@),
{
    let mut rest = AddressSet::new();
    let total: usize = addresses.len();
    let mut i: usize = 0;
    assert(rest@ =~= addresses.seq().take(0).to_set().difference(others@));
    while i < total
        invariant
            i <= total == addresses.seq().len(),
            addresses.wf(),
            others.wf(),
            rest.wf(),
            rest@ == addresses.seq().take(i as int).to_set().difference(others@),
        decreases total - i,
    {
        let address = addresses.get(i);
        let ghost before = rest@;
        if !others.contains(address) {
            let _ = rest.insert(address.duplicate());
        }
        proof {
            let taken = addresses.seq().take(i as int);
            assert(addresses.seq().take(i + 1) =~= taken.push(address@));
            crate::ordered::lemma_push_set(taken, address@);
            assert(rest@ =~= addresses.seq().take(i + 1).to_set().difference(others@));
        }
        i += 1;
    }
    assert(addresses.seq().take(i as int) =~= addresses.seq());
    rest
}

impl P2pEventLoop {
    /// The addresses of the peer by tier.
    pub fn tiers_of(&self, peer: PeerId) -> (tiers: PolicyTiers)
        requires
            self.wf(),
        ensures
            tiers.wf(),
            tiers.first@ == self@.members(peer, 0),
            tiers.second@ == self@.members(peer, 1),
            tiers.third@ == self@.members(peer, 2),
    {
        let retained = self.book.retained_peer_addresses(peer);
        let list = retained.to_vec();
        let tiers = policy_address_tiers(self.book.mode, &list);
        proof {
            assert(views(list@) =~= models(list@));
            assert(views(list@).to_set() =~= retained@);
            assert(tiers.tier(0) == self@.members(peer, 0));
            assert(tiers.tier(1) == self@.members(peer, 1));
            assert(tiers.tier(2) == self@.members(peer, 2));
        }
        tiers
    }

    fn set_tier(&mut self, peer: PeerId, tier: u8)
        requires
            old(self).wf(),
        ensures
            final(self).wf(),
            final(self)@ == old(self)@.with_tier(peer, tier),
    {
        if tier == 0 {
            let _ = self.tiers.remove(peer);
        } else {
            self.tiers.insert(peer, tier);
        }
    }

    fn readdress(&mut self, peer: PeerId, desired: AddressSet)
        requires
            old(self).wf(),
            desired.wf(),
            uniform(desired@),
        ensures
            final(self).wf(),
            final(self)@ == old(self)@.readdressed(peer, desired@),
    {
        let ghost start = self@;
        let previous = match self.installed.remove(peer) {
            Some(previous) => previous,
            None => AddressSet::new(),
        };
        let removed = without(&previous, &desired);
        let added = without(&desired, &previous);
        let ghost wanted = desired@;
        let changed = !removed.is_empty() || !added.is_empty();
        proof {
            if !changed {
                assert forall|a: Seq<Component>| previous@.contains(a) == desired@.contains(
                    a,
                ) by {
                    assert(!removed@.contains(a));
                    assert(!added@.contains(a));
                }
                assert(previous@ =~= desired@);
            } else if previous@ == desired@ {
                assert(removed@ =~= Set::empty());
                assert(added@ =~= Set::empty());
            }
        }
        assert(changed == (start.installed_for(peer) != wanted));
        if !desired.is_empty() {
            self.installed.insert(peer, desired);
        }
        assert(self.installed@ =~= start.readdressed(peer, wanted).installed);
        if changed {
            self.act(Action::Readdress { peer, removed, added });
        }
    }

    /// Makes the choice for a peer follow what is known of it.
    pub fn reconcile_policy_addresses(&mut self, peer: PeerId)
        requires
            old(self).wf(),
        ensures
            final(self).wf(),
            final(self)@ == old(self)@.reconciled(peer),
    {
        let ghost start = self@;
        let tiers = self.tiers_of(peer);
        let requested: u8 = self.selected_transport_tier(peer);
        let first = !tiers.first.is_empty();
        let second = !tiers.second.is_empty();
        let third = !tiers.third.is_empty();
        proof {
            reveal(LoopModel::reconciled);
            if requested > 2 {
                lemma_three_tiers(start.mode(), start.book.retained(peer), requested);
            }
        }
        let known = (requested == 0 && first) || (requested == 1 && second) || (requested == 2
            && third);
        assert(known == start.addressed(peer, requested));
        let tier: u8 = if known || self.links.healthy_connection_at_tier(peer, requested, None)
            || self.policy_dial_exists(peer, requested) {
            requested
        } else if requested == 0 && first {
            0
        } else if requested <= 1 && second {
            1
        } else if requested <= 2 && third {
            2
        } else if first {
            0
        } else if second {
            1
        } else if third {
            2
        } else {
            match self.links.best_healthy_connection_tier(peer) {
                Some(tier) => tier,
                None => requested,
            }
        };
        assert(tier == start.usable_tier(peer));
        proof {
            lemma_tier_uniform(start.mode(), start.book.retained(peer), tier);
            if tier > 2 {
                lemma_three_tiers(start.mode(), start.book.retained(peer), tier);
            }
        }
        let desired = if tier == 0 {
            tiers.first
        } else if tier == 1 {
            tiers.second
        } else if tier == 2 {
            tiers.third
        } else {
            AddressSet::new()
        };
        assert(desired@ == start.members(peer, tier));
        self.set_tier(peer, tier);
        self.readdress(peer, desired);
        self.forget_transport_selection_if_unretained(peer);
    }

    /// Selects a tier for a peer.
    pub fn set_transport_tier(&mut self, peer: PeerId, tier: u8)
        requires
            old(self).wf(),
        ensures
            final(self).wf(),
            final(self)@ == old(self)@.reselected(peer, tier),
    {
        self.set_tier(peer, tier);
        self.reconcile_policy_addresses(peer);
    }

    /// Dials a peer at a tier, unless there is no address or a dial of it is
    /// under way.
    pub fn start_policy_dial(
        &mut self,
        peer: PeerId,
        tier: u8,
        addresses: AddressSet,
        kind: PolicyDialKind,
    )
        requires
            old(self).wf(),
            addresses.wf(),
            uniform(addresses@),
        ensures
            final(self).wf(),
            final(self)@ == old(self)@.dialled(peer, tier, addresses@, kind),
    {
        if addresses.is_empty() || self.policy_dial_exists(peer, tier) {
            return ;
        }
        let path = first_path(&addresses);
        let connection: u64 = self.new_connection();
        self.dials.insert(connection, PolicyDial { peer, tier, path, kind });
        self.act(Action::Dial { connection, peer, addresses });
    }

    /// Notes that the transport refused a dial at once.
    pub fn dial_refused(&mut self, connection: u64)
        requires
            old(self).wf(),
        ensures
            final(self).wf(),
            final(self)@ == (LoopModel {
                dials: old(self)@.dials.remove(connection),
                ..old(self)@
            }),
    {
        let _ = self.dials.remove(connection);
    }

    /// Dials a peer at its selected tier if there is need.
    pub fn ensure_selected_transport(&mut self, peer: PeerId)
        requires
            old(self).wf(),
        ensures
            final(self).wf(),
            final(self)@ == old(self)@.ensured(peer),
    {
        proof {
            reveal(LoopModel::ensured);
        }
        let tier: u8 = self.selected_transport_tier(peer);
        if self.links.healthy_connection_at_tier(peer, tier, None) || self.policy_dial_exists(
            peer,
            tier,
        ) {
            return ;
        }
        let addresses = match self.installed.get(peer) {
            Some(addresses) => addresses.duplicate(),
            None => AddressSet::new(),
        };
        self.start_policy_dial(peer, tier, addresses, PolicyDialKind::Selected);
    }

    /// Retires the connections to the peer that the policy does not want.
    pub fn retire_non_policy_connections(&mut self, peer: PeerId, now: u64)
        requires
            old(self).wf(),
        ensures
            final(self).wf(),
            final(self)@ == old(self)@.non_policy_retired(peer, now),
    {
        proof {
            reveal(LoopModel::non_policy_retired);
        }
        let selected: u8 = self.selected_transport_tier(peer);
        let promotion: Option<u8> = match self.promotions.get(peer) {
            Some(promotion) => Some(promotion.tier),
            None => None,
        };
        self.links.retire_non_policy_connections(peer, selected, promotion, now);
    }

    /// Falls back to the next tier for a peer; says whether there is one.
    pub fn activate_fallback(&mut self, peer: PeerId, now: u64) -> (moved: bool)
        requires
            old(self).wf(),
        ensures
            final(self).wf(),
            final(self)@ == old(self)@.fallen_back(peer, now),
            moved == (old(self)@.next_tier(peer) is Some),
            !moved ==> final(self)@ == old(self)@,
    {
        proof {
            reveal(LoopModel::fallen_back);
        }
        let current: u8 = self.selected_transport_tier(peer);
        let tiers = self.tiers_of(peer);
        let next: u8 = if current < 1 && (!tiers.second.is_empty()
            || self.links.healthy_connection_at_tier(peer, 1, None)) {
            1
        } else if current < 2 && (!tiers.third.is_empty() || self.links.healthy_connection_at_tier(
            peer,
            2,
            None,
        )) {
            2
        } else {
            return false;
        };
        assert(self@.next_tier(peer) == Some(next));
        let _ = self.promotions.remove(peer);
        self.set_transport_tier(peer, next);
        if self.links.healthy_connection_at_tier(peer, next, None) {
            self.retire_non_policy_connections(peer, now);
        } else {
            self.ensure_selected_transport(peer);
        }
        true
    }

    /// Notes a tier better than the selected one, to be selected later.
    pub fn schedule_transport_promotion(&mut self, peer: PeerId, tier: u8, now: u64)
        requires
            old(self).wf(),
        ensures
            final(self).wf(),
            final(self)@ == old(self)@.promoted(peer, tier, now),
    {
        proof {
            reveal(LoopModel::promoted);
        }
        if tier >= self.selected_transport_tier(peer) {
            return ;
        }
        if let Some(promotion) = self.promotions.get(peer) {
            if promotion.tier <= tier {
                return ;
            }
        }
        self.promotions.insert(
            peer,
            TransportPromotion {
                tier,
                deadline: now.saturating_add(TRANSPORT_PROMOTION_GRACE_MILLIS),
            },
        );
    }

    fn try_tier(&mut self, peer: PeerId, tier: u8, current: u8, addresses: AddressSet, now: u64)
        requires
            old(self).wf(),
            addresses.wf(),
            addresses@ == old(self)@.members(peer, tier),
        ensures
            final(self).wf(),
            final(self)@ == old(self)@.tier_tried(peer, tier, current, now),
            final(self)@.book == old(self)@.book,
    {
        proof {
            reveal(LoopModel::tier_tried);
            reveal(LoopModel::promoted);
            lemma_tier_uniform(self@.mode(), self@.book.retained(peer), tier);
        }
        if tier >= current || addresses.is_empty() {
            return ;
        }
        if self.links.healthy_connection_at_tier(peer, tier, None) {
            self.schedule_transport_promotion(peer, tier, now);
        } else {
            self.start_policy_dial(peer, tier, addresses, PolicyDialKind::PreferredProbe);
        }
    }

    fn try_preferred(&mut self, peer: PeerId, now: u64)
        requires
            old(self).wf(),
        ensures
            final(self).wf(),
            final(self)@ == old(self)@.preferred_tried(peer, now),
    {
        proof {
            reveal(LoopModel::preferred_tried);
            reveal(LoopModel::ensured);
        }
        let current: u8 = self.selected_transport_tier(peer);
        self.ensure_selected_transport(peer);
        let tiers = self.tiers_of(peer);
        self.try_tier(peer, 0, current, tiers.first, now);
        self.try_tier(peer, 1, current, tiers.second, now);
        self.try_tier(peer, 2, current, tiers.third, now);
    }

    fn choosing(&self) -> (peers: PeerSet)
        requires
            self.wf(),
        ensures
            peers.wf(),
            peers@ == self@.choosing_peers(),
    {
        proof {
            crate::address::lemma_peer_rank_tells_apart();
        }
        let mut peers = self.tiers.sorted_keys();
        let ghost keys = peers@;
        let total: usize = self.links.paths.len();
        let mut i: usize = 0;
        while i < total
            invariant
                i <= total == self.links.paths.order().len(),
                self.wf(),
                peers.wf(),
                forall|peer: PeerId| #[trigger]
                    peers@.contains(peer) <==> keys.contains(peer) || exists|k: int|
                        0 <= k < i && self.links.paths@[#[trigger] self.links.paths.order()[k]].peer
                            == peer,
            decreases total - i,
        {
            let link = self.links.paths.value_at(i);
            let ghost before = peers@;
            let _ = peers.insert(link.peer);
            proof {
                let here = self.links.paths.order()[i as int];
                assert(self.links.paths@[here].peer == link.peer);
                assert forall|peer: PeerId| #[trigger] peers@.contains(peer) <==> (keys.contains(
                    peer,
                ) || exists|k: int|
                    0 <= k < i + 1 && self.links.paths@[#[trigger] self.links.paths.order()[k]].peer
                        == peer) by {
                    assert(peers@.contains(peer) == (before.contains(peer) || peer == link.peer));
                    if peer == link.peer {
                        assert(self.links.paths@[self.links.paths.order()[i as int]].peer == peer);
                    }
                }
            }
            i += 1;
        }
        proof {
            self.links.paths.lemma_order();
            assert forall|peer: PeerId| peers@.contains(peer) == self@.choosing_peers().contains(
                peer,
            ) by {
                if self@.links.connected(peer) {
                    let c = choose|c: u64| #[trigger]
                        self@.links.paths.contains_key(c) && self@.links.paths[c].peer == peer;
                    let k = choose|k: int|
                        0 <= k < self.links.paths.order().len() && self.links.paths.order()[k]
                            == c;
                    assert(self.links.paths@[self.links.paths.order()[k]].peer == peer);
                }
                if exists|k: int|
                    0 <= k < i && self.links.paths@[#[trigger] self.links.paths.order()[k]].peer
                        == peer {
                    let k = choose|k: int|
                        0 <= k < i && self.links.paths@[#[trigger] self.links.paths.order()[k]].peer
                            == peer;
                    let c = self.links.paths.order()[k];
                    assert(self@.links.paths.contains_key(c) && self@.links.paths[c].peer == peer);
                }
            }
            assert(peers@ =~= self@.choosing_peers());
        }
        peers
    }

    /// Tries the preferred tiers for every peer, in the order of peers.
    pub fn retry_preferred_paths(&mut self, now: u64)
        requires
            old(self).wf(),
        ensures
            final(self).wf(),
            final(self)@ == old(self)@.each_preferred_tried(
                sorted_peers(old(self)@.choosing_peers()),
                now,
            ),
    {
        let set = self.choosing();
        let peers = sorted_vec(&set);
        let mut i: usize = 0;
        assert(peers@.take(0) =~= Seq::empty());
        while i < peers.len()
            invariant
                i <= peers@.len(),
                self.wf(),
                self@ == old(self)@.each_preferred_tried(peers@.take(i as int), now),
            decreases peers@.len() - i,
        {
            proof {
                let next = peers@.take(i + 1);
                assert(next.drop_last() =~= peers@.take(i as int));
            }
            self.try_preferred(peers[i], now);
            i += 1;
        }
        assert(peers@.take(i as int) =~= peers@);
    }

    /// Notes that a connection was established or leads elsewhere than
    /// thought.
    pub fn observe_established_transport(&mut self, peer: PeerId, connection: u64, now: u64)
        requires
            old(self).wf(),
        ensures
            final(self).wf(),
            final(self)@ == old(self)@.observed(peer, connection, now),
    {
        proof {
            reveal(LoopModel::observed);
            lemma_reconciled_keeps(self@, peer);
        }
        self.reconcile_policy_addresses(peer);
        let tier: u8 = match self.links.paths.get(connection) {
            Some(link) => path_preference_rank(self.book.mode, link.path),
            None => {
                return ;
            },
        };
        let selected: u8 = self.selected_transport_tier(peer);
        if tier < selected {
            self.schedule_transport_promotion(peer, tier, now);
        } else if tier > selected {
            self.ensure_selected_transport(peer);
        }
        self.retire_non_policy_connections(peer, now);
    }

    /// Restores the selected tier after a connection to the peer was closed.
    pub fn restore_selected_transport_after_close(
        &mut self,
        peer: PeerId,
        closed_path: Option<P2pPath>,
        now: u64,
    )
        requires
            old(self).wf(),
        ensures
            final(self).wf(),
            final(self)@ == old(self)@.transport_restored(peer, closed_path, now),
    {
        proof {
            reveal(LoopModel::transport_restored);
        }
        let selected: u8 = self.selected_transport_tier(peer);
        if self.links.healthy_connection_at_tier(peer, selected, None) {
            return ;
        }
        self.links.restore(peer);
        let ghost eligible = self@;
        if let Some(best) = self.links.best_healthy_connection_tier(peer) {
            if best <= selected {
                if best < selected {
                    let _ = self.promotions.remove(peer);
                    self.set_transport_tier(peer, best);
                }
                self.retire_non_policy_connections(peer, now);
                return ;
            }
        }
        let lost = match closed_path {
            Some(path) => path_preference_rank(self.book.mode, path) == selected,
            None => false,
        };
        if lost && self.activate_fallback(peer, now) {
            return ;
        }
        self.reconcile_policy_addresses(peer);
        self.ensure_selected_transport(peer);
    }
}

/// Choosing anew for a peer changes only the choice and the addresses.
pub proof fn lemma_reconciled_keeps(state: LoopModel, peer: PeerId)
    ensures
        state.reconciled(peer) == (LoopModel {
            tiers: state.reconciled(peer).tiers,
            installed: state.reconciled(peer).installed,
            actions: state.reconciled(peer).actions,
            ..state
        }),
{
    reveal(LoopModel::reconciled);
}

/// The peers of a set, in order.
pub fn sorted_vec(set: &PeerSet) -> (peers: Vec<PeerId>)
    requires
        set.wf(),
    ensures
        peers@ == sorted_peers(set@),
        peers@.to_set() == set@,
{
    proof {
        crate::address::lemma_peer_rank_tells_apart();
        set.lemma_sorted();
    }
    let peers = set.to_vec();
    assert(models(peers@) =~= peers@);
    peers
}

} // verus!
