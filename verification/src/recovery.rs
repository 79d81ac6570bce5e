//! Recovery of a node from what its peers keep: whose word counts, which state
//! is recovered, and from whom.

use crate::address::{address_of_text, Multiaddr, PeerId};
use crate::dht::{
    bundle_counts, endpoint_values_valid, recovery_bundle_counts, valid_endpoint_values,
    SignedBundle,
};
use crate::endpoints::{texts, EndpointLimits};
use crate::ids::{sort_by_key, sorted_by_key, Id32, Keyed};
use crate::ordered::{bytes_le, lex_le, sort_numbers, sorted_numbers};
use crate::table::KeySet;
use vstd::prelude::*;

verus! {

/// How many publishers must stand behind a state.
pub const REQUIRED_PUBLISHERS: usize = 3;

/// A recovery record as it was opened by the node that it is about.
#[derive(Debug)]
pub struct RecoveryLocator {
    /// The signature over the record is that of its signer.
    pub signature_valid: bool,
    pub signer: Id32,
    pub format_version: u16,
    pub subject: Id32,
    pub publisher: Id32,
    pub guild_id: Id32,
    pub checkpoint_hash: Id32,
    pub checkpoint_generation: u64,
    pub expires_at_unix_seconds: u64,
    pub endpoints: Vec<String>,
    pub subject_endpoint_sequence_floor: u64,
}

/// What was selected of the sealed recovery records that a provider handed out.
#[derive(Debug)]
pub enum SelectedBundle {
    /// No answer, or no record that counts.
    Nothing,
    /// Records that contradict each other.
    Conflicting,
    Bundle(SignedBundle),
}

/// Why a recovery record does not count.
#[derive(Clone, Copy, Debug, PartialEq, Eq, Structural)]
pub enum CandidateError {
    /// The sealed record is not what its provider may hand out.
    Bundle,
    /// What was sealed does not belong to the sealed record.
    Locator,
    /// The state does not give the publisher this right.
    Authority,
}

/// What was sealed belongs to its sealed record.
pub open spec fn locator_matches(
    limits: EndpointLimits,
    bundle: SignedBundle,
    locator: RecoveryLocator,
    now: u64,
) -> bool {
    &&& locator.signature_valid
    &&& locator.signer == bundle.publisher
    &&& locator.format_version == 1
    &&& locator.subject == bundle.subject
    &&& locator.publisher == bundle.publisher
    &&& locator.expires_at_unix_seconds == bundle.expires_at_unix_seconds
    &&& locator.expires_at_unix_seconds > now
    &&& endpoint_values_valid(limits, locator.publisher, texts(locator.endpoints@))
}

/// A recovery record that a provider handed out counts: what was sealed in it
/// could be opened, and belongs to it.
pub open spec fn candidate_counts(
    limits: EndpointLimits,
    local: Id32,
    provider: Seq<char>,
    bundle: SignedBundle,
    locator: Option<RecoveryLocator>,
    now: u64,
) -> bool {
    &&& bundle_counts(provider, local, bundle@, now)
    &&& locator is Some
    &&& locator_matches(limits, bundle, locator->0, now)
}

/// A provider's record would let a node recover a state.
pub open spec fn bundle_ready(
    limits: EndpointLimits,
    local: Id32,
    provider: Seq<char>,
    checkpoint_hash: Id32,
    bundle: SignedBundle,
    locator: Option<RecoveryLocator>,
    authority: bool,
    now: u64,
) -> bool {
    &&& bundle_counts(provider, local, bundle@, now)
    &&& locator is Some
    &&& locator_ready(limits, bundle, locator->0, checkpoint_hash)
    &&& authority
}

/// Checks a recovery record that a provider handed out. `None` is a record
/// that could not be opened or decoded.
pub fn decode_recovery_candidate(
    limits: &EndpointLimits,
    local: &Id32,
    provider_peer_id: &str,
    bundle: &SignedBundle,
    locator: Option<&RecoveryLocator>,
    now: u64,
) -> (result: Result<(), CandidateError>)
    ensures
        result == (if !bundle_counts(provider_peer_id@, *local, bundle@, now) {
            Err::<(), CandidateError>(CandidateError::Bundle)
        } else {
            match locator {
                Some(locator) => if locator_matches(*limits, *bundle, *locator, now) {
                    Ok(())
                } else {
                    Err(CandidateError::Locator)
                },
                None => Err(CandidateError::Locator),
            }
        }),
{
    if !recovery_bundle_counts(provider_peer_id, local, bundle, now) {
        return Err(CandidateError::Bundle);
    }
    match locator {
        Some(locator) => {
            if locator.signature_valid && locator.signer.equals(&bundle.publisher)
                && locator.format_version == 1 && locator.subject.equals(&bundle.subject)
                && locator.publisher.equals(&bundle.publisher) && locator.expires_at_unix_seconds
                == bundle.expires_at_unix_seconds && locator.expires_at_unix_seconds > now
                && valid_endpoint_values(limits, &locator.publisher, &locator.endpoints) {
                Ok(())
            } else {
                Err(CandidateError::Locator)
            }
        },
        None => Err(CandidateError::Locator),
    }
}

/// What was sealed belongs to its sealed record and to a state.
pub open spec fn locator_ready(
    limits: EndpointLimits,
    bundle: SignedBundle,
    locator: RecoveryLocator,
    checkpoint_hash: Id32,
) -> bool {
    &&& locator.signature_valid
    &&& locator.signer == bundle.publisher
    &&& locator.publisher == bundle.publisher
    &&& locator.subject == bundle.subject
    &&& locator.checkpoint_hash == checkpoint_hash
    &&& locator.expires_at_unix_seconds == bundle.expires_at_unix_seconds
    &&& endpoint_values_valid(limits, locator.publisher, texts(locator.endpoints@))
}

/// Checks that a provider's record would let this node recover a state.
/// `authority` says that the state gives the publisher this right.
pub fn validate_ready_bundle(
    limits: &EndpointLimits,
    local: &Id32,
    provider_peer_id: &str,
    checkpoint_hash: &Id32,
    bundle: &SignedBundle,
    locator: Option<&RecoveryLocator>,
    authority: bool,
    now: u64,
) -> (result: Result<(), CandidateError>)
    ensures
        result == (if !bundle_counts(provider_peer_id@, *local, bundle@, now) {
            Err::<(), CandidateError>(CandidateError::Bundle)
        } else if locator is None || !locator_ready(
            *limits,
            *bundle,
            *locator->0,
            *checkpoint_hash,
        ) {
            Err(CandidateError::Locator)
        } else if !authority {
            Err(CandidateError::Authority)
        } else {
            Ok(())
        }),
{
    if !recovery_bundle_counts(provider_peer_id, local, bundle, now) {
        return Err(CandidateError::Bundle);
    }
    match locator {
        Some(locator) => {
            if !locator.signature_valid || !locator.signer.equals(&bundle.publisher)
                || !locator.publisher.equals(&bundle.publisher) || !locator.subject.equals(
                &bundle.subject,
            ) || !locator.checkpoint_hash.equals(checkpoint_hash)
                || locator.expires_at_unix_seconds != bundle.expires_at_unix_seconds
                || !valid_endpoint_values(limits, &locator.publisher, &locator.endpoints) {
                return Err(CandidateError::Locator);
            }
        },
        None => {
            return Err(CandidateError::Locator);
        },
    }
    if !authority {
        return Err(CandidateError::Authority);
    }
    Ok(())
}

/// A state that recovery records point to.
#[derive(Clone, Copy, Debug)]
pub struct RecoveryHead {
    pub generation: u64,
    pub guild_id: Id32,
    pub checkpoint_hash: Id32,
}

impl RecoveryHead {
    pub fn same(&self, other: &RecoveryHead) -> (result: bool)
        ensures
            result == (*self == *other),
    {
        self.generation == other.generation && self.guild_id.equals(&other.guild_id)
            && self.checkpoint_hash.equals(&other.checkpoint_hash)
    }
}

impl Keyed for RecoveryHead {
    open spec fn key(&self) -> Seq<u8> {
        self.guild_id@ + self.checkpoint_hash@
    }

    fn key_le(&self, other: &Self) -> (result: bool) {
        let mine = head_key(self);
        let its = head_key(other);
        bytes_le(mine.as_slice(), its.as_slice())
    }
}

fn head_key(head: &RecoveryHead) -> (key: Vec<u8>)
    ensures
        key@ == head.guild_id@ + head.checkpoint_hash@,
{
    let mut key: Vec<u8> = Vec::new();
    let mut i: usize = 0;
    while i < 32
        invariant
            i <= 32,
            key@ == head.guild_id@.take(i as int),
        decreases 32 - i,
    {
        key.push(head.guild_id.0[i]);
        assert(head.guild_id@.take(i + 1) =~= head.guild_id@.take(i as int).push(
            head.guild_id@[i as int],
        ));
        i += 1;
    }
    let mut j: usize = 0;
    assert(key@ =~= head.guild_id@ + head.checkpoint_hash@.take(0));
    while j < 32
        invariant
            j <= 32,
            key@ == head.guild_id@ + head.checkpoint_hash@.take(j as int),
        decreases 32 - j,
    {
        key.push(head.checkpoint_hash.0[j]);
        assert(key@ =~= head.guild_id@ + head.checkpoint_hash@.take(j + 1));
        j += 1;
    }
    assert(head.checkpoint_hash@.take(32) =~= head.checkpoint_hash@);
    key
}

/// A publisher's word for a state.
#[derive(Clone, Copy, Debug)]
pub struct RecoveryCandidate {
    pub publisher: Id32,
    pub head: RecoveryHead,
}

/// The publishers that stand behind a state.
pub open spec fn publishers_of(candidates: Seq<RecoveryCandidate>, head: RecoveryHead) -> Set<Id32>
    decreases candidates.len(),
{
    if candidates.len() == 0 {
        Set::empty()
    } else {
        let before = publishers_of(candidates.drop_last(), head);
        if candidates.last().head == head {
            before.insert(candidates.last().publisher)
        } else {
            before
        }
    }
}

/// Enough publishers stand behind a state.
pub open spec fn confirmed(candidates: Seq<RecoveryCandidate>, head: RecoveryHead) -> bool {
    publishers_of(candidates, head).len() >= REQUIRED_PUBLISHERS
}

/// The generations at which enough publishers stand behind a state.
pub open spec fn confirmed_generations(candidates: Seq<RecoveryCandidate>) -> Set<u64> {
    Set::new(
        |generation: u64|
            exists|i: int|
                0 <= i < candidates.len() && (#[trigger] candidates[i]).head.generation
                    == generation && confirmed(candidates, candidates[i].head),
    )
}

/// How many publishers stand behind a state.
pub fn confirmations(candidates: &Vec<RecoveryCandidate>, head: &RecoveryHead) -> (count: usize)
    ensures
        count == publishers_of(candidates@, *head).len(),
{
    let mut publishers: KeySet<Id32> = KeySet::new();
    let mut i: usize = 0;
    assert(candidates@.take(0) =~= Seq::empty());
    while i < candidates.len()
        invariant
            i <= candidates@.len(),
            publishers.wf(),
            publishers@ == publishers_of(candidates@.take(i as int), *head),
        decreases candidates@.len() - i,
    {
        proof {
            assert(candidates@.take(i + 1).drop_last() =~= candidates@.take(i as int));
        }
        if candidates[i].head.same(head) {
            publishers.insert(candidates[i].publisher);
        }
        i += 1;
    }
    assert(candidates@.take(i as int) =~= candidates@);
    publishers.len()
}

/// The generations to try, latest first: those at which enough publishers
/// stand behind a state.
pub fn recovery_generations(candidates: &Vec<RecoveryCandidate>) -> (generations: Vec<u64>)
    ensures
        generations@ == sorted_numbers(confirmed_generations(candidates@)).reverse(),
        forall|g: u64|
            generations@.contains(g) == confirmed_generations(candidates@).contains(g),
{
    let mut found: Vec<u64> = Vec::new();
    let mut i: usize = 0;
    while i < candidates.len()
        invariant
            i <= candidates@.len(),
            forall|g: u64| #[trigger]
                found@.contains(g) <==> exists|k: int|
                    0 <= k < i && (#[trigger] candidates@[k]).head.generation == g && confirmed(
                        candidates@,
                        candidates@[k].head,
                    ),
        decreases candidates@.len() - i,
    {
        let head = candidates[i].head;
        let ghost before = found@;
        if confirmations(candidates, &head) >= REQUIRED_PUBLISHERS {
            found.push(head.generation);
        }
        proof {
            assert forall|g: u64| #[trigger] found@.contains(g) <==> (exists|k: int|
                0 <= k < i + 1 && (#[trigger] candidates@[k]).head.generation == g && confirmed(
                    candidates@,
                    candidates@[k].head,
                )) by {
                if before.contains(g) {
                    let x = choose|x: int| 0 <= x < before.len() && before[x] == g;
                    assert(found@[x] == g);
                }
                if found@.contains(g) && !before.contains(g) {
                    let x = choose|x: int| 0 <= x < found@.len() && found@[x] == g;
                    if x < before.len() {
                        assert(before[x] == g);
                    }
                    assert(candidates@[i as int].head.generation == g);
                }
                if confirmed(candidates@, candidates@[i as int].head)
                    && candidates@[i as int].head.generation == g {
                    assert(found@[before.len() as int] == g);
                }
            }
        }
        i += 1;
    }
    proof {
        assert forall|g: u64| found@.to_set().contains(g) == confirmed_generations(
            candidates@,
        ).contains(g) by {
            assert(found@.contains(g) == found@.to_set().contains(g));
        }
        assert(found@.to_set() =~= confirmed_generations(candidates@));
    }
    let sorted = sort_numbers(&found);
    let mut generations: Vec<u64> = Vec::new();
    let mut j: usize = sorted.len();
    assert(generations@ =~= sorted@.reverse().take(0));
    while j > 0
        invariant
            j <= sorted@.len(),
            generations@ == sorted@.reverse().take(sorted@.len() - j),
        decreases j,
    {
        j -= 1;
        generations.push(sorted[j]);
        assert(sorted@.reverse()[sorted@.len() - j - 1] == sorted@[j as int]);
        assert(generations@ =~= sorted@.reverse().take(sorted@.len() - j));
    }
    proof {
        assert(generations@ =~= sorted@.reverse());
        assert forall|g: u64| generations@.contains(g) == confirmed_generations(
            candidates@,
        ).contains(g) by {
            assert(sorted@.contains(g) == sorted@.to_set().contains(g));
            if sorted@.contains(g) {
                let x = choose|x: int| 0 <= x < sorted@.len() && sorted@[x] == g;
                assert(generations@[sorted@.len() - 1 - x] == g);
            }
            if generations@.contains(g) {
                let x = choose|x: int| 0 <= x < generations@.len() && generations@[x] == g;
                assert(sorted@[sorted@.len() - 1 - x] == g);
            }
        }
    }
    generations
}

/// The states at a generation, each once, in the order in which they are first
/// named.
pub open spec fn named_heads(candidates: Seq<RecoveryCandidate>, generation: u64) -> Seq<
    RecoveryHead,
>
    decreases candidates.len(),
{
    if candidates.len() == 0 {
        Seq::empty()
    } else {
        let before = named_heads(candidates.drop_last(), generation);
        let head = candidates.last().head;
        if head.generation == generation && !before.contains(head) {
            before.push(head)
        } else {
            before
        }
    }
}

/// The states at a generation, by guild and hash.
pub fn heads_at(candidates: &Vec<RecoveryCandidate>, generation: u64) -> (heads: Vec<RecoveryHead>)
    ensures
        heads@ == sorted_by_key(named_heads(candidates@, generation)),
{
    let mut heads: Vec<RecoveryHead> = Vec::new();
    let mut i: usize = 0;
    assert(candidates@.take(0) =~= Seq::empty());
    while i < candidates.len()
        invariant
            i <= candidates@.len(),
            heads@ == named_heads(candidates@.take(i as int), generation),
        decreases candidates@.len() - i,
    {
        proof {
            assert(candidates@.take(i + 1).drop_last() =~= candidates@.take(i as int));
        }
        let head = candidates[i].head;
        if head.generation == generation && !has_head(&heads, &head) {
            heads.push(head);
        }
        i += 1;
    }
    assert(candidates@.take(i as int) =~= candidates@);
    sort_by_key(heads)
}

fn has_head(heads: &Vec<RecoveryHead>, head: &RecoveryHead) -> (result: bool)
    ensures
        result == heads@.contains(*head),
{
    let mut i: usize = 0;
    while i < heads.len()
        invariant
            i <= heads@.len(),
            forall|k: int| 0 <= k < i ==> heads@[k] != *head,
        decreases heads@.len() - i,
    {
        if heads[i].same(head) {
            assert(heads@[i as int] == *head);
            return true;
        }
        i += 1;
    }
    false
}

/// A publisher and the place of its word.
#[derive(Clone, Copy, Debug)]
pub struct HeadMember {
    pub publisher: Id32,
    pub place: usize,
}

impl Keyed for HeadMember {
    open spec fn key(&self) -> Seq<u8> {
        self.publisher@
    }

    fn key_le(&self, other: &Self) -> (result: bool) {
        self.publisher.le(&other.publisher)
    }
}

/// A publisher is among members.
pub open spec fn names(members: Seq<HeadMember>, publisher: Id32) -> bool {
    exists|i: int| 0 <= i < members.len() && (#[trigger] members[i]).publisher == publisher
}

/// The first word of each publisher for a state.
pub open spec fn first_words(candidates: Seq<RecoveryCandidate>, head: RecoveryHead) -> Seq<
    HeadMember,
>
    decreases candidates.len(),
{
    if candidates.len() == 0 {
        Seq::empty()
    } else {
        let before = first_words(candidates.drop_last(), head);
        let last = candidates.last();
        if last.head == head && !names(before, last.publisher) {
            before.push(
                HeadMember { publisher: last.publisher, place: (candidates.len() - 1) as usize },
            )
        } else {
            before
        }
    }
}

/// The publishers that stand behind a state, in order, with the place of the
/// first word of each.
pub fn head_members(candidates: &Vec<RecoveryCandidate>, head: &RecoveryHead) -> (members: Vec<
    HeadMember,
>)
    ensures
        members@ == sorted_by_key(first_words(candidates@, *head)),
{
    let mut members: Vec<HeadMember> = Vec::new();
    let mut i: usize = 0;
    assert(candidates@.take(0) =~= Seq::empty());
    while i < candidates.len()
        invariant
            i <= candidates@.len(),
            members@ == first_words(candidates@.take(i as int), *head),
        decreases candidates@.len() - i,
    {
        proof {
            assert(candidates@.take(i + 1).drop_last() =~= candidates@.take(i as int));
        }
        let candidate = candidates[i];
        if candidate.head.same(head) && !has_publisher(&members, &candidate.publisher) {
            members.push(HeadMember { publisher: candidate.publisher, place: i });
        }
        i += 1;
    }
    assert(candidates@.take(i as int) =~= candidates@);
    sort_by_key(members)
}

fn has_publisher(members: &Vec<HeadMember>, publisher: &Id32) -> (result: bool)
    ensures
        result == names(members@, *publisher),
{
    let mut i: usize = 0;
    while i < members.len()
        invariant
            i <= members@.len(),
            forall|k: int| 0 <= k < i ==> (#[trigger] members@[k]).publisher != *publisher,
        decreases members@.len() - i,
    {
        if members[i].publisher.equals(publisher) {
            assert(members@[i as int].publisher == *publisher);
            return true;
        }
        i += 1;
    }
    false
}

/// What was found of a state that a publisher served.
#[derive(Clone, Copy, Debug)]
pub struct ServedState {
    /// The founding certificate of the guild verifies.
    pub genesis_valid: bool,
    /// The certificate of the state verifies.
    pub checkpoint_valid: bool,
    pub genesis_guild_id: Id32,
    pub genesis_hash: Id32,
    pub checkpoint_genesis_hash: Id32,
    pub checkpoint_guild_id: Id32,
    pub checkpoint_generation: u64,
    pub checkpoint_hash: Id32,
    /// The state names the members with which the guild was founded.
    pub members_match: bool,
}

/// A served state is the one that was asked for.
pub open spec fn state_served(state: ServedState, head: RecoveryHead) -> bool {
    &&& state.genesis_valid
    &&& state.checkpoint_valid
    &&& state.genesis_guild_id == head.guild_id
    &&& state.genesis_hash == state.checkpoint_genesis_hash
    &&& state.checkpoint_guild_id == head.guild_id
    &&& state.checkpoint_generation == head.generation
    &&& state.checkpoint_hash == head.checkpoint_hash
    &&& state.members_match
}

/// Whether a served state is the one that was asked for.
pub fn state_matches(state: &ServedState, head: &RecoveryHead) -> (result: bool)
    ensures
        result == state_served(*state, *head),
{
    state.genesis_valid && state.checkpoint_valid && state.genesis_guild_id.equals(&head.guild_id)
        && state.genesis_hash.equals(&state.checkpoint_genesis_hash)
        && state.checkpoint_guild_id.equals(&head.guild_id) && state.checkpoint_generation
        == head.generation && state.checkpoint_hash.equals(&head.checkpoint_hash)
        && state.members_match
}

/// The places of the publishers to which a state gives the right that they
/// claim.
pub open spec fn authorized_places(authorized: Seq<bool>) -> Seq<usize>
    decreases authorized.len(),
{
    if authorized.len() == 0 {
        Seq::empty()
    } else {
        let before = authorized_places(authorized.drop_last());
        if authorized.last() {
            before.push((authorized.len() - 1) as usize)
        } else {
            before
        }
    }
}

/// The publishers behind a certified state: none where too few of them have
/// the right that they claim.
pub fn certified_candidates(authorized: &Vec<bool>) -> (places: Option<Vec<usize>>)
    ensures
        match places {
            Some(places) => places@ == authorized_places(authorized@) && places@.len()
                >= REQUIRED_PUBLISHERS,
            None => authorized_places(authorized@).len() < REQUIRED_PUBLISHERS,
        },
{
    let mut places: Vec<usize> = Vec::new();
    let mut i: usize = 0;
    assert(authorized@.take(0) =~= Seq::empty());
    while i < authorized.len()
        invariant
            i <= authorized@.len(),
            places@ == authorized_places(authorized@.take(i as int)),
        decreases authorized@.len() - i,
    {
        proof {
            assert(authorized@.take(i + 1).drop_last() =~= authorized@.take(i as int));
        }
        if authorized[i] {
            places.push(i);
        }
        i += 1;
    }
    assert(authorized@.take(i as int) =~= authorized@);
    if places.len() >= REQUIRED_PUBLISHERS {
        Some(places)
    } else {
        None
    }
}

/// A generation comes before another among those to try.
pub open spec fn tried_before(generations: Seq<u64>, generation: u64, n: int) -> bool {
    exists|i: int| 0 <= i < n && #[trigger] generations[i] == generation
}

/// The state to recover, of those that were certified: the one at the first
/// generation that has any. More than one there is refused.
pub fn choose_recovery_head(generations: &Vec<u64>, certified: &Vec<RecoveryHead>) -> (chosen: Result<
    Option<RecoveryHead>,
    u64,
>)
    ensures
        match chosen {
            Ok(Some(head)) => exists|n: int|
                {
                    &&& 0 <= n < generations@.len()
                    &&& head.generation == #[trigger] generations@[n]
                    &&& certified@.contains(head)
                    &&& forall|other: RecoveryHead|
                        certified@.contains(other) && other.generation == head.generation ==> other
                            == head
                    &&& forall|other: RecoveryHead| #[trigger]
                        certified@.contains(other) ==> !tried_before(
                            generations@,
                            other.generation,
                            n,
                        )
                },
            Ok(None) => forall|head: RecoveryHead| #[trigger]
                certified@.contains(head) ==> !generations@.contains(head.generation),
            Err(generation) => exists|n: int, a: RecoveryHead, b: RecoveryHead|
                {
                    &&& 0 <= n < generations@.len()
                    &&& generation == #[trigger] generations@[n]
                    &&& a != b
                    &&& #[trigger] certified@.contains(a)
                    &&& #[trigger] certified@.contains(b)
                    &&& a.generation == generation
                    &&& b.generation == generation
                    &&& forall|other: RecoveryHead| #[trigger]
                        certified@.contains(other) ==> !tried_before(
                            generations@,
                            other.generation,
                            n,
                        )
                },
        },
{
    let mut i: usize = 0;
    while i < generations.len()
        invariant
            i <= generations@.len(),
            forall|head: RecoveryHead| #[trigger]
                certified@.contains(head) ==> !tried_before(
                    generations@,
                    head.generation,
                    i as int,
                ),
        decreases generations@.len() - i,
    {
        let generation: u64 = generations[i];
        let mut found: Option<RecoveryHead> = None;
        let mut j: usize = 0;
        while j < certified.len()
            invariant
                i < generations@.len(),
                generation == generations@[i as int],
                j <= certified@.len(),
                forall|head: RecoveryHead| #[trigger]
                    certified@.contains(head) ==> !tried_before(
                        generations@,
                        head.generation,
                        i as int,
                    ),
                match found {
                    Some(head) => certified@.contains(head) && head.generation == generation
                        && forall|k: int|
                        0 <= k < j && (#[trigger] certified@[k]).generation == generation
                            ==> certified@[k] == head,
                    None => forall|k: int|
                        0 <= k < j ==> (#[trigger] certified@[k]).generation != generation,
                },
            decreases certified@.len() - j,
        {
            let head = certified[j];
            if head.generation == generation {
                assert(certified@.contains(certified@[j as int]));
                match found {
                    Some(other) => {
                        if !other.same(&head) {
                            assert(generations@[i as int] == generation);
                            assert(certified@.contains(other) && certified@.contains(head));
                            return Err(generation);
                        }
                    },
                    None => {
                        found = Some(head);
                    },
                }
            }
            j += 1;
        }
        if let Some(head) = found {
            proof {
                assert forall|other: RecoveryHead|
                    certified@.contains(other) && other.generation
                        == head.generation implies other == head by {
                    let k = choose|k: int| 0 <= k < certified@.len() && certified@[k] == other;
                    assert(certified@[k].generation == generation);
                }
                assert(generations@[i as int] == head.generation);
            }
            return Ok(Some(head));
        }
        proof {
            assert forall|head: RecoveryHead| #[trigger] certified@.contains(
                head,
            ) implies !tried_before(generations@, head.generation, i + 1) by {
                let k = choose|k: int| 0 <= k < certified@.len() && certified@[k] == head;
                assert(certified@[k].generation != generation);
                if tried_before(generations@, head.generation, i + 1) {
                    let x = choose|x: int|
                        0 <= x < i + 1 && #[trigger] generations@[x] == head.generation;
                    if x < i {
                        assert(tried_before(generations@, head.generation, i as int));
                    }
                }
            }
        }
        i += 1;
    }
    proof {
        assert forall|head: RecoveryHead| #[trigger]
            certified@.contains(head) implies !generations@.contains(head.generation) by {
            if generations@.contains(head.generation) {
                let x = choose|x: int|
                    0 <= x < generations@.len() && generations@[x] == head.generation;
                assert(tried_before(generations@, head.generation, i as int));
            }
        }
    }
    Ok(None)
}

/// The generations to try are those at which three publishers stand behind a
/// state, and the latest comes first.
pub proof fn recovery_tries_the_latest_first(
    candidates: Seq<RecoveryCandidate>,
    generations: Seq<u64>,
    i: int,
    j: int,
)
    requires
        generations == sorted_numbers(confirmed_generations(candidates)).reverse(),
        0 <= i < j < generations.len(),
    ensures
        generations[i] > generations[j],
        exists|k: int|
            0 <= k < candidates.len() && (#[trigger] candidates[k]).head.generation
                == generations[i] && publishers_of(candidates, candidates[k].head).len()
                >= REQUIRED_PUBLISHERS,
{
    let set = confirmed_generations(candidates);
    lemma_generations_finite(candidates);
    let sorted = sorted_numbers(set);
    let n = sorted.len();
    assert(generations[i] == sorted[n - 1 - i]);
    assert(generations[j] == sorted[n - 1 - j]);
    crate::ordered::lemma_numbers_go_up(set, n - 1 - j, n - 1 - i);
    crate::ordered::lemma_sorted_exists::<u64>(set);
    assert(sorted.to_set().contains(sorted[n - 1 - i]));
    assert(set.contains(generations[i]));
}

pub(crate) proof fn lemma_tried_generations(candidates: Seq<RecoveryCandidate>)
    ensures
        forall|g: u64|
            sorted_numbers(confirmed_generations(candidates)).reverse().contains(g)
                == confirmed_generations(candidates).contains(g),
{
    let set = confirmed_generations(candidates);
    let sorted = sorted_numbers(set);
    lemma_generations_finite(candidates);
    crate::ordered::lemma_sorted_exists::<u64>(set);
    assert forall|g: u64| sorted.reverse().contains(g) == set.contains(g) by {
        assert(sorted.contains(g) == sorted.to_set().contains(g));
        if sorted.contains(g) {
            let x = choose|x: int| 0 <= x < sorted.len() && sorted[x] == g;
            assert(sorted.reverse()[sorted.len() - 1 - x] == g);
        }
        if sorted.reverse().contains(g) {
            let x = choose|x: int| 0 <= x < sorted.len() && sorted.reverse()[x] == g;
            assert(sorted[sorted.len() - 1 - x] == g);
        }
    }
}

proof fn lemma_generations_finite(candidates: Seq<RecoveryCandidate>)
    ensures
        confirmed_generations(candidates).finite(),
{
    let all = candidates.map_values(|candidate: RecoveryCandidate| candidate.head.generation);
    assert forall|g: u64| confirmed_generations(candidates).contains(
        g,
    ) implies all.to_set().contains(g) by {
        let k = choose|k: int|
            0 <= k < candidates.len() && (#[trigger] candidates[k]).head.generation == g
                && confirmed(candidates, candidates[k].head);
        assert(all[k] == g);
    }
    vstd::seq_lib::seq_to_set_is_finite(all);
    vstd::set_lib::lemma_set_subset_finite(all.to_set(), confirmed_generations(candidates));
}

/// The next number under which a recovered node publishes its endpoints is
/// above all that its peers have seen.
pub open spec fn floor_upto(floors: Seq<u64>) -> u64
    decreases floors.len(),
{
    if floors.len() == 0 {
        0
    } else {
        let before = floor_upto(floors.drop_last());
        if floors.last() > before {
            floors.last()
        } else {
            before
        }
    }
}

/// The highest number that peers have seen of the node's endpoints, or zero.
pub fn recovered_endpoint_floor(floors: &Vec<u64>) -> (floor: u64)
    ensures
        floor == floor_upto(floors@),
        forall|i: int| 0 <= i < floors@.len() ==> floors@[i] <= floor,
{
    let mut floor: u64 = 0;
    let mut i: usize = 0;
    assert(floors@.take(0) =~= Seq::empty());
    while i < floors.len()
        invariant
            i <= floors@.len(),
            floor == floor_upto(floors@.take(i as int)),
            forall|k: int| 0 <= k < i ==> floors@[k] <= floor,
        decreases floors@.len() - i,
    {
        proof {
            assert(floors@.take(i + 1).drop_last() =~= floors@.take(i as int));
        }
        if floors[i] > floor {
            floor = floors[i];
        }
        i += 1;
    }
    assert(floors@.take(i as int) =~= floors@);
    floor
}

/// The texts of a list that spell addresses.
pub open spec fn spelled(endpoints: Seq<Seq<char>>) -> Seq<Seq<char>>
    decreases endpoints.len(),
{
    if endpoints.len() == 0 {
        Seq::empty()
    } else {
        let before = spelled(endpoints.drop_last());
        if address_of_text(endpoints.last()) is Some {
            before.push(endpoints.last())
        } else {
            before
        }
    }
}

/// The endpoints of a list that can be used, with their addresses.
pub fn usable_endpoints(endpoints: &Vec<String>) -> (usable: (Vec<String>, Vec<Multiaddr>))
    ensures
        texts(usable.0@) == spelled(texts(endpoints@)),
        usable.0@.len() == usable.1@.len(),
        forall|i: int|
            0 <= i < usable.0@.len() ==> address_of_text((#[trigger] usable.0@[i])@) == Some(
                usable.1@[i]@,
            ),
{
    let mut kept: Vec<String> = Vec::new();
    let mut addresses: Vec<Multiaddr> = Vec::new();
    let ghost all = texts(endpoints@);
    let mut i: usize = 0;
    assert(all.take(0) =~= Seq::empty());
    assert(texts(kept@) =~= Seq::empty());
    while i < endpoints.len()
        invariant
            i <= endpoints@.len(),
            all == texts(endpoints@),
            texts(kept@) == spelled(all.take(i as int)),
            kept@.len() == addresses@.len(),
            forall|k: int|
                0 <= k < kept@.len() ==> address_of_text((#[trigger] kept@[k])@) == Some(
                    addresses@[k]@,
                ),
        decreases endpoints@.len() - i,
    {
        let ghost before = kept@;
        proof {
            assert(all.take(i + 1).drop_last() =~= all.take(i as int));
            assert(all.take(i + 1).last() == endpoints@[i as int]@);
        }
        if let Some(address) = Multiaddr::parse(endpoints[i].as_str()) {
            let text = endpoints[i].clone();
            let ghost model = text@;
            kept.push(text);
            addresses.push(address);
            assert(texts(kept@) =~= texts(before).push(model));
        }
        i += 1;
    }
    assert(all.take(i as int) =~= all);
    (kept, addresses)
}

/// What decides which of a node's own revisions is restored.
#[derive(Clone, Copy, Debug)]
pub struct RevisionFacts {
    pub owner: Id32,
    pub sequence: u64,
    pub revision_id: u128,
}

/// A revision is a node's latest: none of its revisions has a higher number,
/// and none behind it has the same.
pub open spec fn is_latest(revisions: Seq<RevisionFacts>, owner: Id32, i: int) -> bool {
    &&& 0 <= i < revisions.len()
    &&& revisions[i].owner == owner
    &&& forall|k: int|
        0 <= k < revisions.len() && (#[trigger] revisions[k]).owner == owner
            ==> revisions[k].sequence <= revisions[i].sequence
    &&& forall|k: int|
        i < k < revisions.len() && (#[trigger] revisions[k]).owner == owner
            ==> revisions[k].sequence < revisions[i].sequence
}

/// The place of a node's latest revision, if it has any.
pub open spec fn latest_place(revisions: Seq<RevisionFacts>, owner: Id32) -> Option<int> {
    if exists|i: int| is_latest(revisions, owner, i) {
        Some(choose|i: int| is_latest(revisions, owner, i))
    } else {
        None
    }
}

pub(crate) proof fn lemma_latest_place(
    revisions: Seq<RevisionFacts>,
    owner: Id32,
    place: Option<usize>,
)
    requires
        match place {
            Some(place) => is_latest(revisions, owner, place as int),
            None => forall|i: int|
                0 <= i < revisions.len() ==> (#[trigger] revisions[i]).owner != owner,
        },
    ensures
        latest_place(revisions, owner) == (match place {
            Some(place) => Some(place as int),
            None => None,
        }),
{
    if let Some(place) = place {
        assert(is_latest(revisions, owner, place as int));
        let other = choose|i: int| is_latest(revisions, owner, i);
        assert(is_latest(revisions, owner, other));
        assert(revisions[other].sequence <= revisions[place as int].sequence);
        assert(revisions[place as int].sequence <= revisions[other].sequence);
    } else if exists|i: int| is_latest(revisions, owner, i) {
        let other = choose|i: int| is_latest(revisions, owner, i);
        assert(revisions[other].owner == owner);
    }
}

/// The place of a node's latest revision.
pub fn latest_revision(revisions: &Vec<RevisionFacts>, owner: &Id32) -> (place: Option<usize>)
    ensures
        match place {
            Some(place) => is_latest(revisions@, *owner, place as int),
            None => forall|i: int|
                0 <= i < revisions@.len() ==> (#[trigger] revisions@[i]).owner != *owner,
        },
{
    let mut best: Option<usize> = None;
    let mut i: usize = 0;
    while i < revisions.len()
        invariant
            i <= revisions@.len(),
            match best {
                Some(b) => is_latest(revisions@.take(i as int), *owner, b as int),
                None => forall|k: int|
                    0 <= k < i ==> (#[trigger] revisions@[k]).owner != *owner,
            },
        decreases revisions@.len() - i,
    {
        let revision = revisions[i];
        let ghost taken = revisions@.take(i as int);
        let ghost next = revisions@.take(i + 1);
        if revision.owner.equals(owner) {
            let better = match best {
                Some(b) => revision.sequence >= revisions[b].sequence,
                None => true,
            };
            if better {
                proof {
                    assert forall|k: int|
                        0 <= k < next.len() && (#[trigger] next[k]).owner
                            == *owner implies next[k].sequence <= next[i as int].sequence by {
                        if k < i {
                            assert(taken[k] == next[k]);
                            if best is Some {
                                assert(taken[k].sequence <= taken[best->0 as int].sequence);
                            }
                        }
                    }
                    assert(is_latest(next, *owner, i as int));
                }
                best = Some(i);
            } else {
                proof {
                    let b = best->0 as int;
                    assert forall|k: int|
                        0 <= k < next.len() && (#[trigger] next[k]).owner
                            == *owner implies next[k].sequence <= next[b].sequence by {
                        if k < i {
                            assert(taken[k] == next[k]);
                        }
                    }
                    assert forall|k: int|
                        b < k < next.len() && (#[trigger] next[k]).owner
                            == *owner implies next[k].sequence < next[b].sequence by {
                        if k < i {
                            assert(taken[k] == next[k]);
                        }
                    }
                    assert(next[b] == taken[b]);
                    assert(is_latest(next, *owner, b));
                }
            }
        } else {
            proof {
                if best is Some {
                    let b = best->0 as int;
                    assert(next[b] == taken[b]);
                    assert forall|k: int|
                        0 <= k < next.len() && (#[trigger] next[k]).owner
                            == *owner implies next[k].sequence <= next[b].sequence by {
                        if k < i {
                            assert(taken[k] == next[k]);
                        }
                    }
                    assert forall|k: int|
                        b < k < next.len() && (#[trigger] next[k]).owner
                            == *owner implies next[k].sequence < next[b].sequence by {
                        if k < i {
                            assert(taken[k] == next[k]);
                        }
                    }
                    assert(is_latest(next, *owner, b));
                }
            }
        }
        i += 1;
    }
    assert(revisions@.take(i as int) =~= revisions@);
    best
}

/// The floor is the highest number of all: none is above it, and one is it,
/// unless there is none and it is zero.
pub proof fn the_floor_is_the_highest(floors: Seq<u64>)
    ensures
        forall|i: int| 0 <= i < floors.len() ==> #[trigger] floors[i] <= floor_upto(floors),
        floors.len() == 0 ==> floor_upto(floors) == 0,
        floors.len() > 0 ==> exists|i: int|
            0 <= i < floors.len() && #[trigger] floors[i] == floor_upto(floors),
    decreases floors.len(),
{
    if floors.len() > 0 {
        let fewer = floors.drop_last();
        the_floor_is_the_highest(fewer);
        assert forall|i: int| 0 <= i < floors.len() implies #[trigger] floors[i] <= floor_upto(
            floors,
        ) by {
            if i < fewer.len() {
                assert(fewer[i] == floors[i]);
            }
        }
        if floors.last() > floor_upto(fewer) || fewer.len() == 0 {
            assert(floors[floors.len() - 1] == floor_upto(floors));
        } else {
            let i = choose|i: int|
                0 <= i < fewer.len() && #[trigger] fewer[i] == floor_upto(fewer);
            assert(floors[i] == floor_upto(floors));
        }
    }
}

/// The endpoints that are taken over are those that spell addresses, in order.
pub proof fn only_spelled_endpoints_are_used(endpoints: Seq<Seq<char>>)
    ensures
        spelled(endpoints) == endpoints.filter(
            |endpoint: Seq<char>| address_of_text(endpoint) is Some,
        ),
    decreases endpoints.len(),
{
    reveal(Seq::filter);
    if endpoints.len() > 0 {
        only_spelled_endpoints_are_used(endpoints.drop_last());
    }
}

/// A node's latest revision is one of its own, with the highest number, and the
/// last of those that have it; there is one just where the node has a revision.
pub proof fn the_latest_revision_is_the_nodes_own(revisions: Seq<RevisionFacts>, owner: Id32)
    ensures
        match latest_place(revisions, owner) {
            Some(place) => {
                &&& 0 <= place < revisions.len()
                &&& revisions[place].owner == owner
                &&& forall|k: int|
                    0 <= k < revisions.len() && (#[trigger] revisions[k]).owner == owner
                        ==> revisions[k].sequence < revisions[place].sequence
                        || revisions[k].sequence == revisions[place].sequence && k <= place
            },
            None => forall|k: int|
                0 <= k < revisions.len() ==> (#[trigger] revisions[k]).owner != owner,
        },
{
    if exists|k: int| 0 <= k < revisions.len() && (#[trigger] revisions[k]).owner == owner {
        let k = choose|k: int| 0 <= k < revisions.len() && (#[trigger] revisions[k]).owner == owner;
        lemma_some_latest(revisions, owner, revisions.len() as int, k);
    }
}

proof fn lemma_some_latest(revisions: Seq<RevisionFacts>, owner: Id32, n: int, k: int)
    requires
        0 <= k < n <= revisions.len(),
        revisions[k].owner == owner,
    ensures
        exists|i: int| #[trigger] is_latest(revisions.take(n), owner, i),
        n == revisions.len() ==> exists|i: int| is_latest(revisions, owner, i),
    decreases n,
{
    let list = revisions.take(n);
    if n - 1 == k && forall|j: int|
        0 <= j < k && (#[trigger] revisions[j]).owner == owner ==> revisions[j].sequence
            <= revisions[k].sequence {
        assert(is_latest(list, owner, k));
    } else if n - 1 == k {
        let j = choose|j: int|
            0 <= j < k && (#[trigger] revisions[j]).owner == owner && revisions[j].sequence
                > revisions[k].sequence;
        lemma_some_latest(revisions, owner, n - 1, j);
        let shorter = revisions.take(n - 1);
        let i = choose|i: int| is_latest(shorter, owner, i);
        assert(shorter[j] == revisions[j]);
        assert forall|m: int|
            0 <= m < list.len() && (#[trigger] list[m]).owner == owner implies list[m].sequence
            <= list[i].sequence by {
            if m < n - 1 {
                assert(shorter[m] == list[m]);
            }
        }
        assert forall|m: int|
            i < m < list.len() && (#[trigger] list[m]).owner == owner implies list[m].sequence
            < list[i].sequence by {
            if m < n - 1 {
                assert(shorter[m] == list[m]);
            }
        }
        assert(is_latest(list, owner, i));
    } else {
        lemma_some_latest(revisions, owner, n - 1, k);
        let shorter = revisions.take(n - 1);
        let i = choose|i: int| is_latest(shorter, owner, i);
        let last = revisions[n - 1];
        if last.owner == owner && last.sequence >= shorter[i].sequence {
            assert forall|m: int|
                0 <= m < list.len() && (#[trigger] list[m]).owner == owner implies list[m].sequence
                <= list[n - 1].sequence by {
                if m < n - 1 {
                    assert(shorter[m] == list[m]);
                }
            }
            assert(is_latest(list, owner, n - 1));
        } else {
            assert forall|m: int|
                0 <= m < list.len() && (#[trigger] list[m]).owner == owner implies list[m].sequence
                <= list[i].sequence by {
                if m < n - 1 {
                    assert(shorter[m] == list[m]);
                }
            }
            assert forall|m: int|
                i < m < list.len() && (#[trigger] list[m]).owner == owner implies list[m].sequence
                < list[i].sequence by {
                if m < n - 1 {
                    assert(shorter[m] == list[m]);
                }
            }
            assert(is_latest(list, owner, i));
        }
    }
    if n == revisions.len() {
        assert(list =~= revisions);
    }
}

/// A state that was served is the one that was asked for just where both
/// certificates verify, both are of the guild that was named and of one founding,
/// and generation, hash and members agree. So it is the answer to one question
/// alone.
pub proof fn a_served_state_answers_one_question(
    state: ServedState,
    head: RecoveryHead,
    other: RecoveryHead,
)
    ensures
        state_served(state, head) <==> state == (ServedState {
            genesis_valid: true,
            checkpoint_valid: true,
            genesis_guild_id: head.guild_id,
            genesis_hash: state.checkpoint_genesis_hash,
            checkpoint_genesis_hash: state.checkpoint_genesis_hash,
            checkpoint_guild_id: head.guild_id,
            checkpoint_generation: head.generation,
            checkpoint_hash: head.checkpoint_hash,
            members_match: true,
        }),
        state_served(state, head) && state_served(state, other) ==> head == other,
{
}

/// A recovery record counts only where the seal could be opened, and what was
/// sealed is by the same publisher about the same subject, good until the same
/// time, in the first format and validly signed; then it would do for recovery
/// only if it is about the state that is asked for, and the state gives its
/// publisher the right.
pub proof fn what_was_sealed_agrees_with_its_seal(
    limits: EndpointLimits,
    local: Id32,
    provider: Seq<char>,
    hash: Id32,
    bundle: SignedBundle,
    locator: Option<RecoveryLocator>,
    authority: bool,
    now: u64,
)
    ensures
        candidate_counts(limits, local, provider, bundle, locator, now) ==> {
            let opened = locator->0;
            &&& locator is Some
            &&& opened.signature_valid
            &&& opened.format_version == 1
            &&& opened.signer == bundle.publisher && opened.publisher == bundle.publisher
            &&& opened.subject == bundle.subject && bundle.subject == local
            &&& opened.expires_at_unix_seconds == bundle.expires_at_unix_seconds
            &&& opened.expires_at_unix_seconds > now
            &&& endpoint_values_valid(limits, bundle.publisher, texts(opened.endpoints@))
            &&& bundle.signature_valid
            &&& bundle.signer == bundle.publisher
            &&& bundle.format_version == 1
            &&& bundle.sequence > 0
        },
        bundle_ready(limits, local, provider, hash, bundle, locator, authority, now) ==> {
            let opened = locator->0;
            &&& locator is Some
            &&& authority
            &&& opened.signature_valid
            &&& opened.signer == bundle.publisher && opened.publisher == bundle.publisher
            &&& opened.subject == bundle.subject && bundle.subject == local
            &&& opened.checkpoint_hash == hash
            &&& opened.expires_at_unix_seconds == bundle.expires_at_unix_seconds
            &&& bundle.expires_at_unix_seconds > now
            &&& endpoint_values_valid(limits, bundle.publisher, texts(opened.endpoints@))
            &&& bundle.signature_valid
            &&& bundle.signer == bundle.publisher
            &&& bundle.format_version == 1
            &&& bundle.sequence > 0
        },
{
}

/// Enough publishers stand behind a state where three different ones have said
/// so.
pub proof fn three_publishers_confirm(
    candidates: Seq<RecoveryCandidate>,
    head: RecoveryHead,
    i: int,
    j: int,
    k: int,
)
    requires
        0 <= i < candidates.len(),
        0 <= j < candidates.len(),
        0 <= k < candidates.len(),
        candidates[i].head == head,
        candidates[j].head == head,
        candidates[k].head == head,
        candidates[i].publisher != candidates[j].publisher,
        candidates[j].publisher != candidates[k].publisher,
        candidates[i].publisher != candidates[k].publisher,
    ensures
        confirmed(candidates, head),
        confirmed_generations(candidates).contains(head.generation),
{
    lemma_publishers(candidates, head);
    let set = publishers_of(candidates, head);
    let a = candidates[i].publisher;
    let b = candidates[j].publisher;
    let c = candidates[k].publisher;
    assert(set.contains(a) && set.contains(b) && set.contains(c));
    let three = set![a, b, c];
    assert(three.len() == 3);
    vstd::set_lib::lemma_len_subset(three, set);
    assert(candidates[i].head.generation == head.generation);
}

/// The publishers behind a state are those who said so.
pub(crate) proof fn lemma_publishers(candidates: Seq<RecoveryCandidate>, head: RecoveryHead)
    ensures
        publishers_of(candidates, head).finite(),
        publishers_of(candidates, head).len() <= candidates.len(),
        forall|publisher: Id32| #[trigger]
            publishers_of(candidates, head).contains(publisher) <==> exists|i: int|
                0 <= i < candidates.len() && (#[trigger] candidates[i]).head == head
                    && candidates[i].publisher == publisher,
    decreases candidates.len(),
{
    if candidates.len() > 0 {
        let fewer = candidates.drop_last();
        lemma_publishers(fewer, head);
        assert forall|publisher: Id32| #[trigger]
            publishers_of(candidates, head).contains(publisher) <==> exists|i: int|
                0 <= i < candidates.len() && (#[trigger] candidates[i]).head == head
                    && candidates[i].publisher == publisher by {
            if publishers_of(fewer, head).contains(publisher) {
                let i = choose|i: int|
                    0 <= i < fewer.len() && (#[trigger] fewer[i]).head == head
                        && fewer[i].publisher == publisher;
                assert(candidates[i] == fewer[i]);
            }
            if exists|i: int|
                0 <= i < candidates.len() && (#[trigger] candidates[i]).head == head
                    && candidates[i].publisher == publisher {
                let i = choose|i: int|
                    0 <= i < candidates.len() && (#[trigger] candidates[i]).head == head
                        && candidates[i].publisher == publisher;
                if i < fewer.len() {
                    assert(fewer[i].head == head);
                } else {
                    assert(candidates.last() == candidates[i]);
                }
            }
            assert(candidates[candidates.len() - 1] == candidates.last());
        }
    }
}

/// Two publishers are not enough: where no third has said so, a state is not
/// confirmed.
pub proof fn two_publishers_do_not_confirm(
    candidates: Seq<RecoveryCandidate>,
    head: RecoveryHead,
    a: Id32,
    b: Id32,
)
    requires
        forall|i: int|
            0 <= i < candidates.len() && (#[trigger] candidates[i]).head == head
                ==> candidates[i].publisher == a || candidates[i].publisher == b,
    ensures
        !confirmed(candidates, head),
{
    lemma_publishers(candidates, head);
    let two = set![a, b];
    let set = publishers_of(candidates, head);
    assert(set.subset_of(two)) by {
        assert forall|p: Id32| set.contains(p) implies two.contains(p) by {
            let i = choose|i: int|
                0 <= i < candidates.len() && (#[trigger] candidates[i]).head == head
                    && candidates[i].publisher == p;
        }
    }
    vstd::set_lib::lemma_len_subset(set, two);
    assert(two.len() <= 2);
}

/// What was sealed by the publisher of a record, in the first format and validly
/// signed, about the same node and good until the same time, which is still to come,
/// with endpoints that are the publisher's, counts; and it would do for recovery if it
/// is about the state that is asked for, and the state gives its publisher the right.
pub proof fn what_agrees_with_its_seal_counts(
    limits: EndpointLimits,
    local: Id32,
    provider: Seq<char>,
    hash: Id32,
    bundle: SignedBundle,
    opened: RecoveryLocator,
    now: u64,
)
    requires
        bundle_counts(provider, local, bundle@, now),
        opened.signature_valid,
        opened.signer == bundle.publisher,
        opened.publisher == bundle.publisher,
        opened.subject == bundle.subject,
        opened.expires_at_unix_seconds == bundle.expires_at_unix_seconds,
        endpoint_values_valid(limits, bundle.publisher, texts(opened.endpoints@)),
    ensures
        opened.format_version == 1 ==> candidate_counts(
            limits,
            local,
            provider,
            bundle,
            Some(opened),
            now,
        ),
        opened.checkpoint_hash == hash ==> bundle_ready(
            limits,
            local,
            provider,
            hash,
            bundle,
            Some(opened),
            true,
            now,
        ),
        !candidate_counts(limits, local, provider, bundle, None, now),
        !bundle_ready(limits, local, provider, hash, bundle, None, true, now),
{
}

/// Every state that somebody named at a generation is listed there, once; and all
/// who named a state stand behind it, each once, with the first word that they gave.
pub proof fn every_word_is_heard(
    candidates: Seq<RecoveryCandidate>,
    head: RecoveryHead,
    publisher: Id32,
)
    requires
        candidates.len() <= usize::MAX,
    ensures
        named_heads(candidates, head.generation).contains(head) <==> exists|i: int|
            0 <= i < candidates.len() && (#[trigger] candidates[i]).head == head,
        named_heads(candidates, head.generation).no_duplicates(),
        names(first_words(candidates, head), publisher) <==> exists|i: int|
            0 <= i < candidates.len() && (#[trigger] candidates[i]).head == head
                && candidates[i].publisher == publisher,
        forall|k: int|
            0 <= k < first_words(candidates, head).len() ==> {
                let member = #[trigger] first_words(candidates, head)[k];
                &&& member.place < candidates.len()
                &&& candidates[member.place as int].head == head
                &&& candidates[member.place as int].publisher == member.publisher
            },
        forall|k: int, l: int|
            0 <= k < l < first_words(candidates, head).len() ==> (#[trigger] first_words(
                candidates,
                head,
            )[k]).publisher != (#[trigger] first_words(candidates, head)[l]).publisher,
    decreases candidates.len(),
{
    if candidates.len() > 0 {
        let before = candidates.drop_last();
        let last = candidates.last();
        every_word_is_heard(before, head, publisher);
        assert(last == candidates[candidates.len() - 1]);
        assert(forall|i: int| 0 <= i < before.len() ==> before[i] == candidates[i]);
        let some = named_heads(before, head.generation);
        let all = named_heads(candidates, head.generation);
        if exists|i: int| 0 <= i < before.len() && (#[trigger] before[i]).head == head {
            let i = choose|i: int| 0 <= i < before.len() && (#[trigger] before[i]).head == head;
            assert(candidates[i].head == head);
        }
        if exists|i: int| 0 <= i < candidates.len() && (#[trigger] candidates[i]).head == head {
            let i = choose|i: int|
                0 <= i < candidates.len() && (#[trigger] candidates[i]).head == head;
            if i < before.len() {
                assert(before[i].head == head);
            }
        }
        if some.contains(head) {
            let k = choose|k: int| 0 <= k < some.len() && some[k] == head;
            assert(all[k] == head);
        }
        if all.contains(head) && !some.contains(head) {
            let k = choose|k: int| 0 <= k < all.len() && all[k] == head;
            if k < some.len() {
                assert(some[k] == head);
            }
        }
        if all.len() > some.len() {
            assert(all[some.len() as int] == last.head);
        }
        let few = first_words(before, head);
        let words = first_words(candidates, head);
        if names(few, publisher) {
            let k = choose|k: int| 0 <= k < few.len() && (#[trigger] few[k]).publisher == publisher;
            assert(words[k].publisher == publisher);
        }
        if names(words, publisher) {
            let k = choose|k: int|
                0 <= k < words.len() && (#[trigger] words[k]).publisher == publisher;
            if k < few.len() {
                assert(few[k].publisher == publisher);
            }
        }
        if exists|i: int|
            0 <= i < before.len() && (#[trigger] before[i]).head == head && before[i].publisher
                == publisher {
            let i = choose|i: int|
                0 <= i < before.len() && (#[trigger] before[i]).head == head && before[i].publisher
                    == publisher;
            assert(candidates[i].head == head);
        }
        if exists|i: int|
            0 <= i < candidates.len() && (#[trigger] candidates[i]).head == head
                && candidates[i].publisher == publisher {
            let i = choose|i: int|
                0 <= i < candidates.len() && (#[trigger] candidates[i]).head == head
                    && candidates[i].publisher == publisher;
            if i < before.len() {
                assert(before[i].head == head);
            }
        }
        if words.len() > few.len() {
            assert(words[few.len() as int].publisher == last.publisher);
        }
        assert forall|k: int| 0 <= k < words.len() implies {
            let member = #[trigger] words[k];
            &&& member.place < candidates.len()
            &&& candidates[member.place as int].head == head
            &&& candidates[member.place as int].publisher == member.publisher
        } by {
            if k < few.len() {
                assert(words[k] == few[k]);
                assert(before[few[k].place as int] == candidates[few[k].place as int]);
            }
        }
        assert forall|k: int, l: int| 0 <= k < l < words.len() implies (
        #[trigger] words[k]).publisher != (#[trigger] words[l]).publisher by {
            assert(words[k] == few[k]);
            if l < few.len() {
                assert(words[l] == few[l]);
            }
        }
    }
}

} // verus!
