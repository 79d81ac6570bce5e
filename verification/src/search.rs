//! The search for the state to recover: generation by generation, latest
//! first, every state that publishers stand behind is checked.

use crate::head_check::{
    certified_view, check_begun, in_order, validate_recovery_head, word_places, CertifiedModel, CertifiedState,
    CheckAction, CheckEvent, CheckEventModel, CheckModel, HeadCheck,
};
use crate::ids::{sorted_by_key, sorting_permutes_and_orders};
use crate::ordered::sorted_numbers;
use crate::recovery::{
    confirmed_generations, first_words, head_members, heads_at, lemma_tried_generations,
    named_heads, names, recovery_generations, HeadMember, RecoveryCandidate, RecoveryHead,
    REQUIRED_PUBLISHERS,
};
use vstd::prelude::*;

verus! {

/// How far a search has come.
#[derive(Clone, Copy, Debug)]
pub enum SearchStage {
    /// Of a generation, this state is checked.
    Checking(usize, usize),
    /// One state was certified at the latest generation that had any.
    Found,
    /// More than one state was certified at a generation.
    Ambiguous(u64),
    /// Nowhere do enough publishers stand behind a state.
    NothingConfirmed,
    /// None of the states was certified.
    NothingCertified,
}

/// What a search needs next.
#[derive(Clone, Copy, Debug)]
pub enum SearchAction {
    /// Check a state.
    Check { head: RecoveryHead, action: CheckAction },
    Found,
    Ambiguous(u64),
    NothingConfirmed,
    NothingCertified,
}

/// The search for the state to recover.
#[derive(Debug)]
pub struct HeadSearch {
    words: Vec<RecoveryCandidate>,
    generations: Vec<u64>,
    heads: Vec<RecoveryHead>,
    check: Option<HeadCheck>,
    chosen: Option<CertifiedState>,
    several: bool,
    stage: SearchStage,
}

/// The search for the state to recover, for contracts.
#[verifier::ext_equal]
pub struct SearchModel {
    /// What publishers said.
    pub words: Seq<RecoveryCandidate>,
    /// The generations to try, latest first.
    pub generations: Seq<u64>,
    /// The states at the generation that is tried.
    pub heads: Seq<RecoveryHead>,
    pub check: Option<CheckModel>,
    /// The first state that was certified at this generation.
    pub chosen: Option<CertifiedModel>,
    /// Another was certified at this generation, too.
    pub several: bool,
    pub stage: SearchStage,
}

/// The states at a generation, in order.
pub open spec fn states_at(words: Seq<RecoveryCandidate>, generation: u64) -> Seq<RecoveryHead> {
    sorted_by_key(named_heads(words, generation))
}

/// The publishers behind a state, in order.
pub open spec fn behind(words: Seq<RecoveryCandidate>, head: RecoveryHead) -> Seq<HeadMember> {
    sorted_by_key(first_words(words, head))
}

/// The generations to try, latest first.
pub open spec fn tries(words: Seq<RecoveryCandidate>) -> Seq<u64> {
    sorted_numbers(confirmed_generations(words)).reverse()
}

/// Enough different publishers have said that they stand behind a state.
pub open spec fn stood_for(state: CertifiedModel, words: Seq<RecoveryCandidate>) -> bool {
    &&& state.words.len() >= REQUIRED_PUBLISHERS
    &&& forall|i: int|
        0 <= i < state.words.len() ==> #[trigger] state.words[i] < words.len()
            && words[state.words[i] as int].head == state.head
    &&& forall|i: int, j: int|
        0 <= i < j < state.words.len() ==> words[#[trigger] state.words[i] as int].publisher
            != words[#[trigger] state.words[j] as int].publisher
}

impl SearchModel {
    pub open spec fn wf(self) -> bool {
        &&& self.generations == tries(self.words)
        &&& (self.check is Some) == (self.stage is Checking)
        &&& (self.check matches Some(check) ==> check.wf() && !(check.stage is Done))
        &&& (self.chosen matches Some(state) ==> stood_for(state, self.words))
        &&& (self.stage is Found ==> self.chosen is Some && !self.several)
        &&& (self.stage matches SearchStage::Checking(generation, head) ==> {
            &&& generation < self.generations.len()
            &&& head < self.heads.len()
            &&& self.heads == states_at(self.words, self.generations[generation as int])
            &&& self.check->0.head == self.heads[head as int]
            &&& self.check->0.members == behind(self.words, self.heads[head as int])
        })
    }

    /// What is needed next.
    pub open spec fn next(self) -> SearchAction {
        match self.stage {
            SearchStage::Checking(_, head) => SearchAction::Check {
                head: self.heads[head as int],
                action: self.check->0.next(),
            },
            SearchStage::Found => SearchAction::Found,
            SearchStage::Ambiguous(generation) => SearchAction::Ambiguous(generation),
            SearchStage::NothingConfirmed => SearchAction::NothingConfirmed,
            SearchStage::NothingCertified => SearchAction::NothingCertified,
        }
    }

    /// The search at a state of the generation that is tried.
    pub open spec fn checking(self, generation: int, head: int) -> SearchModel {
        SearchModel {
            check: Some(check_begun(self.heads[head], behind(self.words, self.heads[head]))),
            stage: SearchStage::Checking(generation as usize, head as usize),
            ..self
        }
    }

    /// The search at the first state of a generation.
    pub open spec fn trying(self, generation: int) -> SearchModel {
        SearchModel { heads: states_at(self.words, self.generations[generation]), ..self }.checking(
            generation,
            0,
        )
    }

    /// The search without a check, at another stage.
    pub open spec fn ended(self, stage: SearchStage) -> SearchModel {
        SearchModel { check: None, stage, ..self }
    }

    /// The search once a state was checked.
    pub open spec fn with_outcome(
        self,
        generation: int,
        head: int,
        certified: Option<CertifiedModel>,
    ) -> SearchModel {
        let noted = SearchModel {
            chosen: if self.chosen is Some {
                self.chosen
            } else {
                certified
            },
            several: self.several || (self.chosen is Some && certified is Some),
            ..self
        };
        if head + 1 < self.heads.len() {
            noted.checking(generation, head + 1)
        } else if noted.several {
            noted.ended(SearchStage::Ambiguous(self.generations[generation]))
        } else if noted.chosen is Some {
            noted.ended(SearchStage::Found)
        } else if generation + 1 < self.generations.len() {
            noted.trying(generation + 1)
        } else {
            noted.ended(SearchStage::NothingCertified)
        }
    }

    /// The search after an event of the check of a state.
    pub open spec fn after(self, event: CheckEventModel) -> SearchModel {
        match self.stage {
            SearchStage::Checking(generation, head) => {
                let check = self.check->0.after(event);
                if check.stage is Done {
                    self.with_outcome(generation as int, head as int, check.certified)
                } else {
                    SearchModel { check: Some(check), ..self }
                }
            },
            _ => self,
        }
    }
}

/// A search that has just begun.
pub open spec fn search_begun(words: Seq<RecoveryCandidate>) -> SearchModel {
    let empty = SearchModel {
        words,
        generations: tries(words),
        heads: Seq::empty(),
        check: None,
        chosen: None,
        several: false,
        stage: SearchStage::NothingConfirmed,
    };
    if tries(words).len() == 0 {
        empty
    } else {
        empty.trying(0)
    }
}

proof fn lemma_named(words: Seq<RecoveryCandidate>, i: int)
    requires
        0 <= i < words.len(),
    ensures
        named_heads(words, words[i].head.generation).contains(words[i].head),
    decreases words.len(),
{
    let generation = words[i].head.generation;
    let before = named_heads(words.drop_last(), generation);
    let after = named_heads(words, generation);
    if i < words.len() - 1 {
        lemma_named(words.drop_last(), i);
        let k = choose|k: int| 0 <= k < before.len() && before[k] == words[i].head;
        assert(after[k] == words[i].head);
    } else if before.contains(words[i].head) {
        assert(after == before);
    } else {
        assert(after.last() == words[i].head);
    }
}

proof fn lemma_tried_generation_has_states(words: Seq<RecoveryCandidate>, k: int)
    requires
        0 <= k < tries(words).len(),
        forall|g: u64| tries(words).contains(g) == confirmed_generations(words).contains(g),
    ensures
        states_at(words, tries(words)[k]).len() > 0,
{
    let generation = tries(words)[k];
    assert(tries(words).contains(generation));
    assert(confirmed_generations(words).contains(generation));
    let i = choose|i: int|
        0 <= i < words.len() && (#[trigger] words[i]).head.generation == generation
            && crate::recovery::confirmed(words, words[i].head);
    lemma_named(words, i);
    sorting_permutes_and_orders(named_heads(words, generation));
}

/// Publishers are named at the places of words for a state, each once.
spec fn well_named(
    members: Seq<HeadMember>,
    words: Seq<RecoveryCandidate>,
    head: RecoveryHead,
) -> bool {
    &&& forall|k: int|
        0 <= k < members.len() ==> {
            let member = #[trigger] members[k];
            &&& member.place < words.len()
            &&& words[member.place as int].head == head
            &&& words[member.place as int].publisher == member.publisher
        }
    &&& forall|k: int, l: int|
        0 <= k < l < members.len() ==> (#[trigger] members[k]).publisher != (
        #[trigger] members[l]).publisher
}

proof fn lemma_first_words_named(words: Seq<RecoveryCandidate>, head: RecoveryHead)
    requires
        words.len() <= usize::MAX,
    ensures
        well_named(first_words(words, head), words, head),
    decreases words.len(),
{
    if words.len() > 0 {
        let shorter = words.drop_last();
        lemma_first_words_named(shorter, head);
        let before = first_words(shorter, head);
        let after = first_words(words, head);
        assert forall|k: int| 0 <= k < after.len() implies {
            let member = #[trigger] after[k];
            &&& member.place < words.len()
            &&& words[member.place as int].head == head
            &&& words[member.place as int].publisher == member.publisher
        } by {
            if k < before.len() {
                assert(after[k] == before[k]);
                assert(shorter[before[k].place as int] == words[before[k].place as int]);
            }
        }
        assert forall|k: int, l: int| 0 <= k < l < after.len() implies (
        #[trigger] after[k]).publisher != (#[trigger] after[l]).publisher by {
            assert(after[k] == before[k]);
            if l < before.len() {
                assert(after[l] == before[l]);
            } else {
                assert(!names(before, words.last().publisher));
            }
        }
    }
}

proof fn lemma_behind_named(words: Seq<RecoveryCandidate>, head: RecoveryHead)
    requires
        words.len() <= usize::MAX,
    ensures
        well_named(behind(words, head), words, head),
{
    broadcast use vstd::seq_lib::group_to_multiset_ensures;

    let plain = first_words(words, head);
    let sorted = behind(words, head);
    lemma_first_words_named(words, head);
    sorting_permutes_and_orders(plain);
    assert forall|k: int| 0 <= k < sorted.len() implies plain.contains(#[trigger] sorted[k]) by {
        assert(sorted.contains(sorted[k]));
        assert(plain.to_multiset().count(sorted[k]) > 0);
    }
    assert(plain.no_duplicates()) by {
        assert forall|k: int, l: int|
            0 <= k < plain.len() && 0 <= l < plain.len() && k != l implies plain[k] != plain[l] by {
            if k < l {
                assert(plain[k].publisher != plain[l].publisher);
            } else {
                assert(plain[l].publisher != plain[k].publisher);
            }
        }
    }
    plain.lemma_multiset_has_no_duplicates();
    assert forall|x: HeadMember| sorted.to_multiset().count(x) <= 1 by {
        if sorted.to_multiset().count(x) > 0 {
            assert(plain.to_multiset().contains(x));
        }
    }
    sorted.lemma_multiset_has_no_duplicates_conv();
    assert forall|k: int, l: int| 0 <= k < l < sorted.len() implies (
    #[trigger] sorted[k]).publisher != (#[trigger] sorted[l]).publisher by {
        let a = choose|a: int| 0 <= a < plain.len() && plain[a] == sorted[k];
        let b = choose|b: int| 0 <= b < plain.len() && plain[b] == sorted[l];
        assert(plain.contains(sorted[k]) && plain.contains(sorted[l]));
        assert(sorted[k] != sorted[l]);
        if a < b {
            assert(plain[a].publisher != plain[b].publisher);
        } else {
            assert(plain[b].publisher != plain[a].publisher);
        }
    }
}

proof fn lemma_certified_is_stood_for(check: CheckModel, words: Seq<RecoveryCandidate>)
    requires
        words.len() <= usize::MAX,
        check.wf(),
        check.members == behind(words, check.head),
    ensures
        check.certified matches Some(state) ==> stood_for(state, words),
{
    lemma_behind_named(words, check.head);
    if let Some(state) = check.certified {
        let members = check.members;
        let places = choose|places: Seq<usize>|
            in_order(places, members.len()) && state.words == #[trigger] word_places(
                members,
                places,
            );
        assert forall|i: int| 0 <= i < state.words.len() implies #[trigger] state.words[i]
            < words.len() && words[state.words[i] as int].head == state.head by {
            assert(members[places[i] as int].place == state.words[i]);
        }
        assert forall|i: int, j: int| 0 <= i < j < state.words.len() implies
            words[#[trigger] state.words[i] as int].publisher
            != words[#[trigger] state.words[j] as int].publisher by {
            assert(places[i] < places[j]);
            assert(members[places[i] as int].publisher != members[places[j] as int].publisher);
            assert(members[places[i] as int].place == state.words[i]);
            assert(members[places[j] as int].place == state.words[j]);
        }
    }
}

/// Begins to search among what publishers said for the state to recover.
pub fn search_head(words: Vec<RecoveryCandidate>) -> (search: HeadSearch)
    ensures
        search@ == search_begun(words@),
        search@.wf(),
{
    let generations = recovery_generations(&words);
    let mut search = HeadSearch {
        words,
        generations,
        heads: Vec::new(),
        check: None,
        chosen: None,
        several: false,
        stage: SearchStage::NothingConfirmed,
    };
    if search.generations.len() > 0 {
        search.try_generation(0);
    }
    search
}

impl HeadSearch {
    pub closed spec fn view(&self) -> SearchModel {
        SearchModel {
            words: self.words@,
            generations: self.generations@,
            heads: self.heads@,
            check: match self.check {
                Some(check) => Some(check@),
                None => None,
            },
            chosen: certified_view(self.chosen),
            several: self.several,
            stage: self.stage,
        }
    }

    /// What is needed next.
    pub fn next(&self) -> (action: SearchAction)
        requires
            self@.wf(),
        ensures
            action == self@.next(),
    {
        match self.stage {
            SearchStage::Checking(_, head) => match &self.check {
                Some(check) => SearchAction::Check {
                    head: self.heads[head],
                    action: check.next(),
                },
                None => SearchAction::NothingCertified,
            },
            SearchStage::Found => SearchAction::Found,
            SearchStage::Ambiguous(generation) => SearchAction::Ambiguous(generation),
            SearchStage::NothingConfirmed => SearchAction::NothingConfirmed,
            SearchStage::NothingCertified => SearchAction::NothingCertified,
        }
    }

    fn check_head(&mut self, generation: usize, head: usize)
        requires
            old(self)@.generations == tries(old(self)@.words),
            generation < old(self)@.generations.len(),
            head < old(self)@.heads.len(),
            old(self)@.heads == states_at(
                old(self)@.words,
                old(self)@.generations[generation as int],
            ),
            old(self)@.chosen matches Some(state) ==> stood_for(
                state,
                old(self)@.words,
            ),
        ensures
            final(self)@ == old(self)@.checking(generation as int, head as int),
            final(self)@.wf(),
    {
        let state = self.heads[head];
        let members = head_members(&self.words, &state);
        self.check = Some(validate_recovery_head(state, members));
        self.stage = SearchStage::Checking(generation, head);
    }

    fn try_generation(&mut self, generation: usize)
        requires
            old(self)@.generations == tries(old(self)@.words),
            generation < old(self)@.generations.len(),
            forall|g: u64|
                tries(old(self)@.words).contains(g) == confirmed_generations(
                    old(self)@.words,
                ).contains(g),
            old(self)@.chosen matches Some(state) ==> stood_for(
                state,
                old(self)@.words,
            ),
        ensures
            final(self)@ == old(self)@.trying(generation as int),
            final(self)@.wf(),
    {
        self.heads = heads_at(&self.words, self.generations[generation]);
        proof {
            lemma_tried_generation_has_states(self.words@, generation as int);
        }
        self.check_head(generation, 0);
    }

    fn take_outcome(&mut self, generation: usize, head: usize, certified: Option<CertifiedState>)
        requires
            old(self)@.generations == tries(old(self)@.words),
            generation < old(self)@.generations.len(),
            head < old(self)@.heads.len(),
            old(self)@.heads == states_at(
                old(self)@.words,
                old(self)@.generations[generation as int],
            ),
            old(self)@.check is None,
            old(self)@.chosen matches Some(state) ==> stood_for(
                state,
                old(self)@.words,
            ),
            certified matches Some(state) ==> stood_for(state@, old(self)@.words),
        ensures
            final(self)@ == old(self)@.with_outcome(
                generation as int,
                head as int,
                certified_view(certified),
            ),
            final(self)@.wf(),
    {
        assert(generation < self.generations.len() && head < self.heads.len());
        if self.chosen.is_some() {
            if certified.is_some() {
                self.several = true;
            }
        } else {
            self.chosen = certified;
        }
        if head + 1 < self.heads.len() {
            self.check_head(generation, head + 1);
        } else if self.several {
            self.stage = SearchStage::Ambiguous(self.generations[generation]);
        } else if self.chosen.is_some() {
            self.stage = SearchStage::Found;
        } else if generation + 1 < self.generations.len() {
            proof {
                lemma_tried_generations(self.words@);
            }
            self.try_generation(generation + 1);
        } else {
            self.stage = SearchStage::NothingCertified;
        }
    }

    /// Takes what came of the check of a state.
    pub fn take(&mut self, event: CheckEvent)
        requires
            old(self)@.wf(),
        ensures
            final(self)@ == old(self)@.after(event@),
            final(self)@.wf(),
    {
        if let SearchStage::Checking(generation, head) = self.stage {
            if let Some(mut check) = self.check.take() {
                check.take(event);
                if let CheckAction::Done = check.next() {
                    proof {
                        assert(self.words.len() <= usize::MAX);
                        lemma_certified_is_stood_for(check@, self.words@);
                    }
                    let certified = check.outcome();
                    self.take_outcome(generation, head, certified);
                } else {
                    self.check = Some(check);
                }
            }
        }
    }

    /// The state to recover, once it was found.
    pub fn outcome(self) -> (chosen: Option<CertifiedState>)
        ensures
            certified_view(chosen) == self@.chosen,
    {
        self.chosen
    }
}

/// A search moves on to an earlier generation only where none of the states at
/// this one was certified; and it finds a state only where that is the one
/// state that was certified at its generation.
pub proof fn a_search_takes_the_latest(search: SearchModel, event: CheckEventModel)
    requires
        search.wf(),
        search.generations.len() <= usize::MAX,
        search.heads.len() <= usize::MAX,
    ensures
        match (search.stage, search.after(event).stage) {
            (SearchStage::Checking(generation, _), SearchStage::Checking(later, _)) => later
                == generation || (later == generation + 1 && search.chosen is None
                && search.after(event).chosen is None),
            _ => true,
        },
        search.stage is Checking && search.after(event).stage is Found ==> {
            let certified = search.check->0.after(event).certified;
            &&& search.stage matches SearchStage::Checking(_, head) && head == search.heads.len()
                - 1
            &&& (search.chosen is None || certified is None)
            &&& search.after(event).chosen == (if search.chosen is Some {
                search.chosen
            } else {
                certified
            })
        },
        !(search.stage is Checking) ==> search.after(event) == search,
{
}

/// A state that was checked, with what came of it.
pub struct Checked {
    pub head: RecoveryHead,
    pub certified: Option<CertifiedModel>,
}

/// A search after events, one after another.
pub open spec fn searched(words: Seq<RecoveryCandidate>, events: Seq<CheckEventModel>) -> SearchModel
    decreases events.len(),
{
    if events.len() == 0 {
        search_begun(words)
    } else {
        searched(words, events.drop_last()).after(events.last())
    }
}

/// The states whose check has ended in the course of a search, in order.
pub open spec fn checked(words: Seq<RecoveryCandidate>, events: Seq<CheckEventModel>) -> Seq<Checked>
    decreases events.len(),
{
    if events.len() == 0 {
        Seq::empty()
    } else {
        let earlier = checked(words, events.drop_last());
        let search = searched(words, events.drop_last());
        let check = search.check->0.after(events.last());
        if search.stage is Checking && check.stage is Done {
            earlier.push(Checked { head: check.head, certified: check.certified })
        } else {
            earlier
        }
    }
}

/// The states that were certified, in order.
pub open spec fn certified_among(list: Seq<Checked>) -> Seq<CertifiedModel>
    decreases list.len(),
{
    if list.len() == 0 {
        Seq::empty()
    } else {
        let before = certified_among(list.drop_last());
        match list.last().certified {
            Some(state) => before.push(state),
            None => before,
        }
    }
}

/// A state is at a generation that is tried, and some publisher named it.
pub open spec fn is_tried(words: Seq<RecoveryCandidate>, head: RecoveryHead) -> bool {
    confirmed_generations(words).contains(head.generation) && named_heads(
        words,
        head.generation,
    ).contains(head)
}

/// The check of a state has ended.
pub open spec fn was_checked(list: Seq<Checked>, head: RecoveryHead) -> bool {
    exists|i: int| 0 <= i < list.len() && (#[trigger] list[i]).head == head
}

/// The states at the first of the generations that are tried.
spec fn states_before(words: Seq<RecoveryCandidate>, n: int) -> Seq<RecoveryHead>
    decreases n,
{
    if n <= 0 {
        Seq::empty()
    } else {
        states_before(words, n - 1) + states_at(words, tries(words)[n - 1])
    }
}

spec fn heads_of(list: Seq<Checked>) -> Seq<RecoveryHead> {
    list.map_values(|entry: Checked| entry.head)
}

/// The states that have been checked where a search stands: those of earlier
/// generations, and the first at this one.
spec fn due(search: SearchModel, at: int) -> Seq<RecoveryHead> {
    match search.stage {
        SearchStage::Checking(_, head) => states_before(search.words, at) + states_at(
            search.words,
            tries(search.words)[at],
        ).take(head as int),
        SearchStage::Found => states_before(search.words, at + 1),
        SearchStage::Ambiguous(_) => states_before(search.words, at + 1),
        SearchStage::NothingConfirmed => Seq::empty(),
        SearchStage::NothingCertified => states_before(search.words, at + 1),
    }
}

/// A search stands at a generation, having checked a list of states.
spec fn stands_at(
    search: SearchModel,
    words: Seq<RecoveryCandidate>,
    list: Seq<Checked>,
    at: int,
) -> bool {
    let certified = certified_among(list);
    &&& search.words == words
    &&& search.generations == tries(words)
    &&& heads_of(list) == due(search, at)
    &&& (search.stage is NothingConfirmed ==> tries(words).len() == 0)
    &&& (!(search.stage is NothingConfirmed) ==> 0 <= at < tries(words).len())
    &&& (search.stage is NothingCertified ==> at == tries(words).len() - 1)
    &&& (search.stage matches SearchStage::Ambiguous(generation) ==> generation == tries(words)[at])
    &&& (search.stage matches SearchStage::Checking(generation, head) ==> {
        &&& generation == at
        &&& search.heads == states_at(words, tries(words)[at])
        &&& head < search.heads.len()
        &&& search.check is Some
        &&& search.check->0.head == search.heads[head as int]
        &&& (search.check->0.certified matches Some(state) ==> state.head
            == search.check->0.head)
    })
    &&& (search.chosen == if certified.len() > 0 {
        Some(certified[0])
    } else {
        None
    })
    &&& (search.several <==> certified.len() > 1)
    &&& (search.stage is Found ==> certified.len() == 1)
    &&& (search.stage is Ambiguous ==> certified.len() > 1)
    &&& (search.stage is NothingCertified ==> certified.len() == 0)
    &&& (search.stage is NothingConfirmed ==> certified.len() == 0)
    &&& forall|k: int|
        0 <= k < certified.len() ==> states_at(words, tries(words)[at]).contains(
            (#[trigger] certified[k]).head,
        )
}

proof fn lemma_few_states(words: Seq<RecoveryCandidate>, generation: u64)
    ensures
        named_heads(words, generation).len() <= words.len(),
        forall|head: RecoveryHead| #[trigger]
            named_heads(words, generation).contains(head) ==> head.generation == generation,
    decreases words.len(),
{
    if words.len() > 0 {
        lemma_few_states(words.drop_last(), generation);
        let before = named_heads(words.drop_last(), generation);
        let after = named_heads(words, generation);
        assert forall|head: RecoveryHead| #[trigger] after.contains(head) implies head.generation
            == generation by {
            let k = choose|k: int| 0 <= k < after.len() && after[k] == head;
            if k < before.len() {
                assert(before[k] == head);
                assert(before.contains(head));
            }
        }
    }
}

proof fn lemma_states(words: Seq<RecoveryCandidate>, generation: u64)
    ensures
        states_at(words, generation).len() <= words.len(),
        forall|head: RecoveryHead| #[trigger]
            states_at(words, generation).contains(head) == named_heads(words, generation).contains(
                head,
            ),
        forall|head: RecoveryHead| #[trigger]
            states_at(words, generation).contains(head) ==> head.generation == generation,
{
    broadcast use vstd::seq_lib::group_to_multiset_ensures;

    let plain = named_heads(words, generation);
    let sorted = states_at(words, generation);
    lemma_few_states(words, generation);
    sorting_permutes_and_orders(plain);
    assert forall|head: RecoveryHead| #[trigger] sorted.contains(head) == plain.contains(
        head,
    ) by {
        assert(sorted.contains(head) <==> sorted.to_multiset().count(head) > 0);
        assert(plain.contains(head) <==> plain.to_multiset().count(head) > 0);
    }
}

proof fn lemma_few_tries(words: Seq<RecoveryCandidate>)
    ensures
        tries(words).len() <= words.len(),
{
    lemma_tried_generations(words);
    let list = tries(words);
    let named = words.map_values(|word: RecoveryCandidate| word.head.generation);
    assert(list.no_duplicates()) by {
        assert forall|i: int, j: int|
            0 <= i < list.len() && 0 <= j < list.len() && i != j implies list[i] != list[j] by {
            if i < j {
                crate::recovery::recovery_tries_the_latest_first(words, list, i, j);
            } else {
                crate::recovery::recovery_tries_the_latest_first(words, list, j, i);
            }
        }
    }
    list.unique_seq_to_set();
    assert(list.to_set().subset_of(named.to_set())) by {
        assert forall|g: u64| list.to_set().contains(g) implies named.to_set().contains(g) by {
            assert(list.contains(g));
            assert(confirmed_generations(words).contains(g));
            let i = choose|i: int|
                0 <= i < words.len() && (#[trigger] words[i]).head.generation == g
                    && crate::recovery::confirmed(words, words[i].head);
            assert(named[i] == g);
        }
    }
    vstd::seq_lib::seq_to_set_is_finite(named);
    named.lemma_cardinality_of_set();
    vstd::set_lib::lemma_len_subset(list.to_set(), named.to_set());
}

/// A search that takes another event stands where it stood, or further on.
proof fn lemma_stands_on(
    search: SearchModel,
    words: Seq<RecoveryCandidate>,
    list: Seq<Checked>,
    at: int,
    event: CheckEventModel,
) -> (next: int)
    requires
        words.len() <= usize::MAX,
        stands_at(search, words, list, at),
    ensures
        stands_at(
            search.after(event),
            words,
            if search.stage is Checking && search.check->0.after(event).stage is Done {
                list.push(
                    Checked {
                        head: search.check->0.after(event).head,
                        certified: search.check->0.after(event).certified,
                    },
                )
            } else {
                list
            },
            next,
        ),
{
    if let SearchStage::Checking(generation, head) = search.stage {
        let check = search.check->0.after(event);
        if check.stage is Done {
            let entry = Checked { head: check.head, certified: check.certified };
            let longer = list.push(entry);
            let certified = certified_among(longer);
            let states = states_at(words, tries(words)[at]);
            lemma_states(words, tries(words)[at]);
            lemma_few_tries(words);
            lemma_tried_generations(words);
            assert(longer.drop_last() =~= list);
            assert(heads_of(longer) =~= heads_of(list).push(states[head as int]));
            assert(states.take(head + 1) =~= states.take(head as int).push(states[head as int]));
            assert(states.contains(states[head as int]));
            assert(heads_of(longer) =~= states_before(words, at) + states.take(head + 1));
            assert forall|k: int| 0 <= k < certified.len() implies states.contains(
                (#[trigger] certified[k]).head,
            ) by {
                if k < certified_among(list).len() {
                    assert(certified[k] == certified_among(list)[k]);
                }
            }
            let after = search.after(event);
            if head + 1 < states.len() {
                at
            } else {
                assert(states.take(head + 1) =~= states);
                assert(states_before(words, at + 1) == states_before(words, at) + states);
                if certified.len() == 0 && at + 1 < tries(words).len() {
                    lemma_tried_generation_has_states(words, at + 1);
                    let following = states_at(words, tries(words)[at + 1]);
                    assert(following.take(0) =~= Seq::empty());
                    assert(heads_of(longer) =~= states_before(words, at + 1) + following.take(0));
                    at + 1
                } else {
                    at
                }
            }
        } else {
            at
        }
    } else {
        at
    }
}

proof fn lemma_search_stands(words: Seq<RecoveryCandidate>, events: Seq<CheckEventModel>) -> (at: int)
    requires
        words.len() <= usize::MAX,
    ensures
        stands_at(searched(words, events), words, checked(words, events), at),
    decreases events.len(),
{
    if events.len() == 0 {
        let none = Seq::<Checked>::empty();
        assert(heads_of(none) =~= Seq::empty());
        if tries(words).len() > 0 {
            lemma_tried_generations(words);
            lemma_tried_generation_has_states(words, 0);
            lemma_states(words, tries(words)[0]);
            let states = states_at(words, tries(words)[0]);
            assert(states_before(words, 0) =~= Seq::empty());
            assert(states_before(words, 0) + states.take(0) =~= Seq::empty());
        }
        0
    } else {
        let earlier = events.drop_last();
        let at = lemma_search_stands(words, earlier);
        lemma_stands_on(
            searched(words, earlier),
            words,
            checked(words, earlier),
            at,
            events.last(),
        )
    }
}

/// The states at a generation are among those at the first generations.
proof fn lemma_among_first(words: Seq<RecoveryCandidate>, k: int, n: int, head: RecoveryHead)
    requires
        0 <= k < n,
        states_at(words, tries(words)[k]).contains(head),
    ensures
        states_before(words, n).contains(head),
    decreases n,
{
    let before = states_before(words, n - 1);
    let last = states_at(words, tries(words)[n - 1]);
    if k == n - 1 {
        let i = choose|i: int| 0 <= i < last.len() && last[i] == head;
        assert((before + last)[before.len() + i] == head);
    } else {
        lemma_among_first(words, k, n - 1, head);
        let i = choose|i: int| 0 <= i < before.len() && before[i] == head;
        assert((before + last)[i] == head);
    }
}

/// Where all states of the first generations were checked, all those at a
/// generation that is not earlier than the last of them were.
proof fn lemma_all_checked(words: Seq<RecoveryCandidate>, list: Seq<Checked>, at: int)
    requires
        0 <= at < tries(words).len(),
        heads_of(list) == states_before(words, at + 1),
    ensures
        forall|head: RecoveryHead| #[trigger]
            is_tried(words, head) && (head.generation >= tries(words)[at] || at == tries(
                words,
            ).len() - 1) ==> was_checked(list, head),
{
    lemma_tried_generations(words);
    assert forall|head: RecoveryHead| #[trigger]
        is_tried(words, head) && (head.generation >= tries(words)[at] || at == tries(words).len()
            - 1) implies was_checked(list, head) by {
        assert(tries(words).contains(head.generation));
        let k = choose|k: int| 0 <= k < tries(words).len() && tries(words)[k] == head.generation;
        if k > at {
            crate::recovery::recovery_tries_the_latest_first(words, tries(words), at, k);
        }
        lemma_states(words, head.generation);
        lemma_among_first(words, k, at + 1, head);
        let all = states_before(words, at + 1);
        let i = choose|i: int| 0 <= i < all.len() && all[i] == head;
        assert(heads_of(list)[i] == list[i].head);
    }
}

/// Whatever publishers answered, a search that has found a state had exactly
/// one state certified: every state that was named at its generation, or at a
/// later one with enough publishers behind a state, was checked, and no other
/// was certified. A search that is ambiguous had more than one certified at its
/// generation, and none at a later one. A search that certified nothing has
/// checked all there was.
pub proof fn a_search_finds_the_latest_certified_state(
    words: Seq<RecoveryCandidate>,
    events: Seq<CheckEventModel>,
)
    requires
        words.len() <= usize::MAX,
    ensures
        ({
            let search = searched(words, events);
            let list = checked(words, events);
            let certified = certified_among(list);
            match search.stage {
                SearchStage::Found => {
                    &&& search.chosen is Some
                    &&& certified == seq![search.chosen->0]
                    &&& is_tried(words, search.chosen->0.head)
                    &&& forall|head: RecoveryHead| #[trigger]
                        is_tried(words, head) && head.generation
                            >= search.chosen->0.head.generation ==> was_checked(list, head)
                },
                SearchStage::Ambiguous(generation) => {
                    &&& certified.len() > 1
                    &&& forall|k: int|
                        0 <= k < certified.len() ==> (#[trigger] certified[k]).head.generation
                            == generation
                    &&& forall|head: RecoveryHead| #[trigger]
                        is_tried(words, head) && head.generation >= generation ==> was_checked(
                            list,
                            head,
                        )
                },
                SearchStage::NothingCertified => {
                    &&& certified.len() == 0
                    &&& forall|head: RecoveryHead| #[trigger]
                        is_tried(words, head) ==> was_checked(list, head)
                },
                SearchStage::NothingConfirmed => forall|head: RecoveryHead|
                    !(#[trigger] is_tried(words, head)),
                SearchStage::Checking(_, _) => true,
            }
        }),
{
    let at = lemma_search_stands(words, events);
    let search = searched(words, events);
    let list = checked(words, events);
    let certified = certified_among(list);
    lemma_tried_generations(words);
    if search.stage is NothingConfirmed {
        assert forall|head: RecoveryHead| !(#[trigger] is_tried(words, head)) by {
            if is_tried(words, head) {
                assert(tries(words).contains(head.generation));
            }
        }
    } else {
        lemma_states(words, tries(words)[at]);
        if !(search.stage is Checking) {
            lemma_all_checked(words, list, at);
        }
        assert(tries(words).contains(tries(words)[at]));
        if search.stage is Found {
            assert(certified =~= seq![search.chosen->0]);
            assert(states_at(words, tries(words)[at]).contains(certified[0].head));
        }
    }
}

} // verus!
