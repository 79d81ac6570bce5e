//! Checking a state that recovery records point to: the publishers are asked
//! for it until one serves it with enough of them having the right they claim.

use crate::ids::Id32;
use crate::recovery::{
    authorized_places, certified_candidates, state_matches, state_served, HeadMember, RecoveryHead,
    RevisionFacts, ServedState, REQUIRED_PUBLISHERS,
};
use vstd::prelude::*;

verus! {

/// A state that a publisher served, with what the node makes of it.
#[derive(Debug)]
pub struct ServedAnswer {
    pub state: ServedState,
    /// Which of the publishers the state gives the right that they claim.
    pub authorized: Vec<bool>,
    /// The members with which the guild was founded.
    pub members: Vec<Id32>,
    pub revisions: Vec<RevisionFacts>,
}

/// A state that a publisher served, as a plain value.
pub struct ServedModel {
    pub state: ServedState,
    pub authorized: Seq<bool>,
    pub members: Seq<Id32>,
    pub revisions: Seq<RevisionFacts>,
}

impl ServedAnswer {
    pub open spec fn view(&self) -> ServedModel {
        ServedModel {
            state: self.state,
            authorized: self.authorized@,
            members: self.members@,
            revisions: self.revisions@,
        }
    }
}

/// The view of an answer, if there is one.
pub open spec fn served_view(served: Option<ServedAnswer>) -> Option<ServedModel> {
    match served {
        Some(served) => Some(served@),
        None => None,
    }
}

/// A certified state.
#[derive(Debug)]
pub struct CertifiedState {
    pub head: RecoveryHead,
    /// The places of the words of the publishers that stand behind it.
    pub words: Vec<usize>,
    pub members: Vec<Id32>,
    pub revisions: Vec<RevisionFacts>,
}

/// A certified state, as a plain value.
pub struct CertifiedModel {
    pub head: RecoveryHead,
    pub words: Seq<usize>,
    pub members: Seq<Id32>,
    pub revisions: Seq<RevisionFacts>,
}

impl CertifiedState {
    pub open spec fn view(&self) -> CertifiedModel {
        CertifiedModel {
            head: self.head,
            words: self.words@,
            members: self.members@,
            revisions: self.revisions@,
        }
    }
}

/// The view of a certified state, if there is one.
pub open spec fn certified_view(state: Option<CertifiedState>) -> Option<CertifiedModel> {
    match state {
        Some(state) => Some(state@),
        None => None,
    }
}

/// How far a check has come.
#[derive(Clone, Copy, Debug)]
pub enum CheckStage {
    /// The addresses of this publisher are added, for this check only.
    Adding(usize),
    /// So many publishers have answered.
    Serving(usize),
    /// The addresses are forgotten.
    Clearing,
    Done,
}

/// What a check needs next.
#[derive(Clone, Copy, Debug)]
pub enum CheckAction {
    /// Add the addresses that the word at this place names.
    AddAddresses { word: usize },
    /// Ask the publisher of the word at this place for the state.
    FindState { word: usize },
    ClearAddresses,
    Done,
}

/// What came of an action. That addresses could not be added or forgotten
/// does not stop a check.
#[derive(Debug)]
pub enum CheckEvent {
    Added,
    /// What a publisher served, if it did.
    Served(Option<ServedAnswer>),
    Cleared,
}

/// What came of an action, as a plain value.
pub enum CheckEventModel {
    Added,
    Served(Option<ServedModel>),
    Cleared,
}

impl CheckEvent {
    pub open spec fn view(&self) -> CheckEventModel {
        match *self {
            CheckEvent::Added => CheckEventModel::Added,
            CheckEvent::Served(served) => CheckEventModel::Served(served_view(served)),
            CheckEvent::Cleared => CheckEventModel::Cleared,
        }
    }
}

/// The check of a state.
#[derive(Debug)]
pub struct HeadCheck {
    head: RecoveryHead,
    members: Vec<HeadMember>,
    certified: Option<CertifiedState>,
    stage: CheckStage,
}

/// The check of a state, for contracts.
#[verifier::ext_equal]
pub struct CheckModel {
    pub head: RecoveryHead,
    /// The publishers that stand behind the state.
    pub members: Seq<HeadMember>,
    pub certified: Option<CertifiedModel>,
    pub stage: CheckStage,
}

/// The places of words, from places among publishers.
pub open spec fn word_places(members: Seq<HeadMember>, places: Seq<usize>) -> Seq<usize> {
    places.map_values(|place: usize| members[place as int].place)
}

/// Places among publishers, in order and each once.
pub open spec fn in_order(places: Seq<usize>, n: nat) -> bool {
    &&& forall|i: int| 0 <= i < places.len() ==> #[trigger] places[i] < n
    &&& forall|i: int, j: int|
        0 <= i < j < places.len() ==> #[trigger] places[i] < #[trigger] places[j]
}

/// Words are those of some of the publishers, each taken once.
pub open spec fn picked(members: Seq<HeadMember>, words: Seq<usize>) -> bool {
    exists|places: Seq<usize>|
        in_order(places, members.len()) && words == #[trigger] word_places(members, places)
}

impl CheckModel {
    pub open spec fn wf(self) -> bool {
        &&& (self.stage matches CheckStage::Adding(at) ==> at < self.members.len())
        &&& (self.stage matches CheckStage::Serving(at) ==> at < self.members.len())
        &&& (self.certified is Some ==> self.stage is Clearing || self.stage is Done)
        &&& (self.certified matches Some(state) ==> {
            &&& state.head == self.head
            &&& state.words.len() >= REQUIRED_PUBLISHERS
            &&& picked(self.members, state.words)
        })
    }

    /// What is needed next.
    pub open spec fn next(self) -> CheckAction {
        match self.stage {
            CheckStage::Adding(at) => CheckAction::AddAddresses {
                word: self.members[at as int].place,
            },
            CheckStage::Serving(at) => CheckAction::FindState {
                word: self.members[at as int].place,
            },
            CheckStage::Clearing => CheckAction::ClearAddresses,
            CheckStage::Done => CheckAction::Done,
        }
    }

    /// An answer certifies the state: it is the one that was asked for, and
    /// enough publishers have the right that they claim.
    pub open spec fn certifies(self, served: ServedModel) -> bool {
        &&& state_served(served.state, self.head)
        &&& served.authorized.len() == self.members.len()
        &&& authorized_places(served.authorized).len() >= REQUIRED_PUBLISHERS
    }

    /// The state as an answer certifies it.
    pub open spec fn certified_by(self, served: ServedModel) -> CertifiedModel {
        CertifiedModel {
            head: self.head,
            words: word_places(self.members, authorized_places(served.authorized)),
            members: served.members,
            revisions: served.revisions,
        }
    }

    /// The check with the answer of a publisher.
    pub open spec fn with_answer(self, at: usize, served: Option<ServedModel>) -> CheckModel {
        if served is Some && self.certifies(served->0) {
            CheckModel {
                certified: Some(self.certified_by(served->0)),
                stage: CheckStage::Clearing,
                ..self
            }
        } else if at + 1 < self.members.len() {
            CheckModel { stage: CheckStage::Serving((at + 1) as usize), ..self }
        } else {
            CheckModel { stage: CheckStage::Clearing, ..self }
        }
    }

    /// The check after an event; one that does not fit changes nothing.
    pub open spec fn after(self, event: CheckEventModel) -> CheckModel {
        match (self.stage, event) {
            (CheckStage::Adding(at), CheckEventModel::Added) => CheckModel {
                stage: if at + 1 < self.members.len() {
                    CheckStage::Adding((at + 1) as usize)
                } else {
                    CheckStage::Serving(0)
                },
                ..self
            },
            (CheckStage::Serving(at), CheckEventModel::Served(served)) => self.with_answer(
                at,
                served,
            ),
            (CheckStage::Clearing, CheckEventModel::Cleared) => CheckModel {
                stage: CheckStage::Done,
                ..self
            },
            _ => self,
        }
    }
}

/// A check that has just begun.
pub open spec fn check_begun(head: RecoveryHead, members: Seq<HeadMember>) -> CheckModel {
    CheckModel {
        head,
        members,
        certified: None,
        stage: if members.len() == 0 {
            CheckStage::Clearing
        } else {
            CheckStage::Adding(0)
        },
    }
}

proof fn lemma_authorized_in_order(authorized: Seq<bool>)
    requires
        authorized.len() <= usize::MAX,
    ensures
        in_order(authorized_places(authorized), authorized.len()),
    decreases authorized.len(),
{
    if authorized.len() > 0 {
        lemma_authorized_in_order(authorized.drop_last());
        let before = authorized_places(authorized.drop_last());
        let after = authorized_places(authorized);
        assert forall|i: int| 0 <= i < after.len() implies #[trigger] after[i]
            < authorized.len() by {
            if i < before.len() {
                assert(after[i] == before[i]);
            }
        }
        assert forall|i: int, j: int| 0 <= i < j < after.len() implies #[trigger] after[i]
            < #[trigger] after[j] by {
            assert(after[i] == before[i]);
            if j < before.len() {
                assert(after[j] == before[j]);
            }
        }
    }
}

/// Begins to check a state that publishers stand behind.
pub fn validate_recovery_head(head: RecoveryHead, members: Vec<HeadMember>) -> (check: HeadCheck)
    ensures
        check@ == check_begun(head, members@),
        check@.wf(),
{
    let stage = if members.len() == 0 {
        CheckStage::Clearing
    } else {
        CheckStage::Adding(0)
    };
    HeadCheck { head, members, certified: None, stage }
}

impl HeadCheck {
    pub closed spec fn view(&self) -> CheckModel {
        CheckModel {
            head: self.head,
            members: self.members@,
            certified: certified_view(self.certified),
            stage: self.stage,
        }
    }

    /// What is needed next.
    pub fn next(&self) -> (action: CheckAction)
        requires
            self@.wf(),
        ensures
            action == self@.next(),
    {
        match self.stage {
            CheckStage::Adding(at) => CheckAction::AddAddresses { word: self.members[at].place },
            CheckStage::Serving(at) => CheckAction::FindState { word: self.members[at].place },
            CheckStage::Clearing => CheckAction::ClearAddresses,
            CheckStage::Done => CheckAction::Done,
        }
    }

    fn words(&self, places: &Vec<usize>) -> (words: Vec<usize>)
        requires
            forall|i: int|
                0 <= i < places@.len() ==> #[trigger] places@[i] < self@.members.len(),
        ensures
            words@ == word_places(self@.members, places@),
    {
        let mut words: Vec<usize> = Vec::new();
        let ghost all = word_places(self@.members, places@);
        let mut i: usize = 0;
        while i < places.len()
            invariant
                i <= places@.len(),
                all == word_places(self@.members, places@),
                words@ == all.take(i as int),
                forall|i: int|
                    0 <= i < places@.len() ==> #[trigger] places@[i] < self@.members.len(),
            decreases places@.len() - i,
        {
            words.push(self.members[places[i]].place);
            assert(all.take(i + 1) =~= all.take(i as int).push(all[i as int]));
            i += 1;
        }
        assert(all.take(i as int) =~= all);
        words
    }

    fn take_answer(&mut self, at: usize, served: Option<ServedAnswer>)
        requires
            old(self)@.wf(),
            old(self)@.stage == CheckStage::Serving(at),
        ensures
            final(self)@ == old(self)@.with_answer(at, served_view(served)),
            final(self)@.wf(),
    {
        assert(at < self.members.len());
        if let Some(served) = served {
            if state_matches(&served.state, &self.head) && served.authorized.len()
                == self.members.len() {
                if let Some(places) = certified_candidates(&served.authorized) {
                    proof {
                        lemma_authorized_in_order(served.authorized@);
                    }
                    let words = self.words(&places);
                    assert(picked(self@.members, words@));
                    self.certified = Some(
                        CertifiedState {
                            head: self.head,
                            words,
                            members: served.members,
                            revisions: served.revisions,
                        },
                    );
                    self.stage = CheckStage::Clearing;
                    return ;
                }
            }
        }
        if at + 1 < self.members.len() {
            self.stage = CheckStage::Serving(at + 1);
        } else {
            self.stage = CheckStage::Clearing;
        }
    }

    /// Takes what came of the last action.
    pub fn take(&mut self, event: CheckEvent)
        requires
            old(self)@.wf(),
        ensures
            final(self)@ == old(self)@.after(event@),
            final(self)@.wf(),
    {
        match (self.stage, event) {
            (CheckStage::Adding(at), CheckEvent::Added) => {
                assert(at < self.members.len());
                if at + 1 < self.members.len() {
                    self.stage = CheckStage::Adding(at + 1);
                } else {
                    self.stage = CheckStage::Serving(0);
                }
            },
            (CheckStage::Serving(at), CheckEvent::Served(served)) => {
                self.take_answer(at, served);
            },
            (CheckStage::Clearing, CheckEvent::Cleared) => {
                self.stage = CheckStage::Done;
            },
            _ => {},
        }
    }

    /// The certified state, if the check has come to one.
    pub fn outcome(self) -> (certified: Option<CertifiedState>)
        ensures
            certified_view(certified) == self@.certified,
    {
        self.certified
    }
}

/// A state counts as certified only where an answer certified it, and the
/// first that does is final; the addresses that were added for a check are
/// always forgotten before it is done.
pub proof fn a_check_ends_clean(check: CheckModel, event: CheckEventModel)
    requires
        check.wf(),
    ensures
        check.certified is None && check.after(event).certified is Some ==> {
            &&& event matches CheckEventModel::Served(Some(served)) && check.certifies(served)
            &&& check.after(event).stage is Clearing
        },
        check.certified is Some ==> check.after(event).certified == check.certified,
        check.after(event).stage is Done && !(check.stage is Done) ==> check.stage is Clearing
            && event is Cleared,
{
}

/// Three of the publishers, at three places, have the right that they claim.
pub open spec fn three_authorized(authorized: Seq<bool>) -> bool {
    exists|i: int, j: int, k: int|
        0 <= i < j < k < authorized.len() && #[trigger] authorized[i] && #[trigger] authorized[j]
            && #[trigger] authorized[k]
}

/// An answer proves a state to those who asked so many publishers: it is served
/// as it was named, both certificates verify, both are of one guild with its
/// founding members, and three of the publishers have the right that they claim.
pub open spec fn proves(answer: Option<ServedModel>, head: RecoveryHead, publishers: nat) -> bool {
    answer matches Some(served) && {
        &&& served.state == (ServedState {
            genesis_valid: true,
            checkpoint_valid: true,
            genesis_guild_id: head.guild_id,
            genesis_hash: served.state.checkpoint_genesis_hash,
            checkpoint_genesis_hash: served.state.checkpoint_genesis_hash,
            checkpoint_guild_id: head.guild_id,
            checkpoint_generation: head.generation,
            checkpoint_hash: head.checkpoint_hash,
            members_match: true,
        })
        &&& served.authorized.len() == publishers
        &&& three_authorized(served.authorized)
    }
}

/// A check after events, one after another.
pub open spec fn check_after(check: CheckModel, events: Seq<CheckEventModel>) -> CheckModel
    decreases events.len(),
{
    if events.len() == 0 {
        check
    } else {
        check_after(check, events.drop_last()).after(events.last())
    }
}

/// So many times the word that addresses were added.
pub open spec fn additions(n: nat) -> Seq<CheckEventModel> {
    Seq::new(n, |i: int| CheckEventModel::Added)
}

/// What publishers answered, in order.
pub open spec fn answers(list: Seq<Option<ServedModel>>) -> Seq<CheckEventModel> {
    list.map_values(|answer: Option<ServedModel>| CheckEventModel::Served(answer))
}

/// The places of those who have the right that they claim are in order, and no
/// other place is among them.
pub(crate) proof fn lemma_authorized_exactly(authorized: Seq<bool>)
    requires
        authorized.len() <= usize::MAX,
    ensures
        in_order(authorized_places(authorized), authorized.len()),
        forall|i: int|
            0 <= i < authorized.len() ==> (#[trigger] authorized[i] <==> authorized_places(
                authorized,
            ).contains(i as usize)),
    decreases authorized.len(),
{
    lemma_authorized_in_order(authorized);
    if authorized.len() > 0 {
        let shorter = authorized.drop_last();
        lemma_authorized_exactly(shorter);
        let before = authorized_places(shorter);
        let after = authorized_places(authorized);
        assert forall|i: int| 0 <= i < authorized.len() implies (#[trigger] authorized[i]
            <==> after.contains(i as usize)) by {
            if i < authorized.len() - 1 {
                assert(shorter[i] == authorized[i]);
                if before.contains(i as usize) {
                    let k = choose|k: int| 0 <= k < before.len() && before[k] == i as usize;
                    assert(after[k] == i as usize);
                }
                if after.contains(i as usize) {
                    let k = choose|k: int| 0 <= k < after.len() && after[k] == i as usize;
                    assert(k < before.len());
                    assert(before[k] == i as usize);
                }
            } else {
                if authorized[i] {
                    assert(after[before.len() as int] == i as usize);
                }
                if after.contains(i as usize) && !authorized[i] {
                    let k = choose|k: int| 0 <= k < after.len() && after[k] == i as usize;
                    assert(before[k] < shorter.len());
                }
            }
        }
    }
}

proof fn lemma_three(authorized: Seq<bool>)
    requires
        authorized.len() <= usize::MAX,
    ensures
        three_authorized(authorized) <==> authorized_places(authorized).len() >= 3,
{
    lemma_authorized_exactly(authorized);
    let places = authorized_places(authorized);
    if places.len() >= 3 {
        assert(places[0] < places[1] && places[1] < places[2]);
        assert(places.contains(places[0]) && places.contains(places[1]) && places.contains(
            places[2],
        ));
        assert(authorized[places[0] as int] && authorized[places[1] as int]
            && authorized[places[2] as int]);
    }
    if three_authorized(authorized) {
        let (i, j, k) = choose|i: int, j: int, k: int|
            0 <= i < j < k < authorized.len() && #[trigger] authorized[i]
                && #[trigger] authorized[j] && #[trigger] authorized[k];
        assert(places.contains(i as usize) && places.contains(j as usize) && places.contains(
            k as usize,
        ));
        let a = choose|a: int| 0 <= a < places.len() && places[a] == i as usize;
        let b = choose|b: int| 0 <= b < places.len() && places[b] == j as usize;
        let c = choose|c: int| 0 <= c < places.len() && places[c] == k as usize;
        assert(a != b && b != c && a != c);
    }
}

proof fn lemma_proves(check: CheckModel, answer: Option<ServedModel>)
    requires
        check.members.len() <= usize::MAX,
    ensures
        proves(answer, check.head, check.members.len()) <==> answer is Some && check.certifies(
            answer->0,
        ),
{
    if let Some(served) = answer {
        if served.authorized.len() == check.members.len() {
            lemma_three(served.authorized);
        }
    }
}

proof fn lemma_added(head: RecoveryHead, members: Seq<HeadMember>, n: nat)
    requires
        0 < members.len() <= usize::MAX,
        n <= members.len(),
    ensures
        check_after(check_begun(head, members), additions(n)) == (CheckModel {
            head,
            members,
            certified: None,
            stage: if n < members.len() {
                CheckStage::Adding(n as usize)
            } else {
                CheckStage::Serving(0)
            },
        }),
    decreases n,
{
    if n > 0 {
        lemma_added(head, members, (n - 1) as nat);
        assert(additions(n).drop_last() =~= additions((n - 1) as nat));
    }
}

proof fn lemma_joined_events(check: CheckModel, a: Seq<CheckEventModel>, b: Seq<CheckEventModel>)
    ensures
        check_after(check, a + b) == check_after(check_after(check, a), b),
    decreases b.len(),
{
    if b.len() == 0 {
        assert(a + b =~= a);
    } else {
        assert((a + b).drop_last() =~= a + b.drop_last());
        lemma_joined_events(check, a, b.drop_last());
    }
}

proof fn lemma_refused(
    head: RecoveryHead,
    members: Seq<HeadMember>,
    refused: Seq<Option<ServedModel>>,
)
    requires
        0 < members.len() <= usize::MAX,
        refused.len() <= members.len(),
        forall|i: int|
            0 <= i < refused.len() ==> !proves(#[trigger] refused[i], head, members.len()),
    ensures
        ({
            let asking = CheckModel {
                head,
                members,
                certified: None,
                stage: CheckStage::Serving(0),
            };
            check_after(asking, answers(refused)) == (CheckModel {
                stage: if refused.len() < members.len() {
                    CheckStage::Serving(refused.len() as usize)
                } else {
                    CheckStage::Clearing
                },
                ..asking
            })
        }),
    decreases refused.len(),
{
    if refused.len() > 0 {
        let fewer = refused.drop_last();
        assert forall|i: int| 0 <= i < fewer.len() implies !proves(
            #[trigger] fewer[i],
            head,
            members.len(),
        ) by {
            assert(fewer[i] == refused[i]);
        }
        lemma_refused(head, members, fewer);
        assert(answers(refused).drop_last() =~= answers(fewer));
        let asking = CheckModel {
            head,
            members,
            certified: None,
            stage: CheckStage::Serving(0),
        };
        let before = check_after(asking, answers(fewer));
        lemma_proves(before, refused.last());
        assert(!proves(refused[refused.len() - 1], head, members.len()));
    }
}

/// A check adds the addresses of every publisher behind a state, one after
/// another, and then asks every one of them for it, in the same order, until one
/// serves it with proof. Only after the last of them has been asked in vain does
/// it end without a certified state. What is certified is the state that was
/// asked for, on the word of just those publishers that have the right they
/// claim. Either way the addresses are forgotten before the check is done.
pub proof fn every_publisher_is_asked(
    head: RecoveryHead,
    members: Seq<HeadMember>,
    n: nat,
    refused: Seq<Option<ServedModel>>,
    answer: Option<ServedModel>,
)
    requires
        0 < members.len() <= usize::MAX,
        n < members.len(),
        refused.len() < members.len(),
        forall|i: int|
            0 <= i < refused.len() ==> !proves(#[trigger] refused[i], head, members.len()),
    ensures
        check_after(check_begun(head, members), additions(n)).next() == (
        CheckAction::AddAddresses { word: members[n as int].place }),
        ({
            let j = refused.len() as int;
            let asking = check_after(
                check_begun(head, members),
                additions(members.len()) + answers(refused),
            );
            let answered = asking.after(CheckEventModel::Served(answer));
            let cleared = answered.after(CheckEventModel::Cleared);
            &&& asking.next() == (CheckAction::FindState { word: members[j].place })
            &&& asking.certified is None
            &&& if proves(answer, head, members.len()) {
                &&& answered.next() is ClearAddresses
                &&& answered.certified matches Some(state) && {
                    &&& state.head == head
                    &&& state.members == answer->0.members
                    &&& state.revisions == answer->0.revisions
                    &&& exists|places: Seq<usize>|
                        {
                            &&& #[trigger] in_order(places, members.len())
                            &&& forall|i: int|
                                0 <= i < members.len() ==> (#[trigger] answer->0.authorized[i]
                                    <==> places.contains(i as usize))
                            &&& state.words == places.map_values(
                                |place: usize| members[place as int].place,
                            )
                        }
                }
            } else {
                &&& answered.certified is None
                &&& answered.next() == (if j + 1 < members.len() {
                    CheckAction::FindState { word: members[j + 1].place }
                } else {
                    CheckAction::ClearAddresses
                })
            }
            &&& answered.next() is ClearAddresses ==> cleared.next() is Done && cleared.certified
                == answered.certified
        }),
{
    let begun = check_begun(head, members);
    lemma_added(head, members, n);
    lemma_added(head, members, members.len());
    lemma_joined_events(begun, additions(members.len()), answers(refused));
    lemma_refused(head, members, refused);
    let asking = check_after(begun, additions(members.len()) + answers(refused));
    lemma_proves(asking, answer);
    if proves(answer, head, members.len()) {
        let places = authorized_places(answer->0.authorized);
        lemma_authorized_exactly(answer->0.authorized);
        let state = asking.after(CheckEventModel::Served(answer)).certified->0;
        assert(state.words =~= places.map_values(|place: usize| members[place as int].place));
        assert(in_order(places, members.len()));
    }
}

/// A check without publishers has nobody to ask.
pub proof fn without_publishers_nothing_is_certified(head: RecoveryHead)
    ensures
        ({
            let begun = check_begun(head, Seq::empty());
            &&& begun.certified is None
            &&& begun.next() is ClearAddresses
            &&& begun.after(CheckEventModel::Cleared).next() is Done
            &&& begun.after(CheckEventModel::Cleared).certified is None
        }),
{
}

/// What was not asked for changes nothing in a check.
pub proof fn a_check_takes_only_what_it_asked_for(check: CheckModel, event: CheckEventModel)
    requires
        check.wf(),
        match check.next() {
            CheckAction::AddAddresses { .. } => !(event is Added),
            CheckAction::FindState { .. } => !(event is Served),
            CheckAction::ClearAddresses => !(event is Cleared),
            CheckAction::Done => true,
        },
    ensures
        check.after(event) == check,
{
}

} // verus!
