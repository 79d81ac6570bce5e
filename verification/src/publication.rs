//! What a node publishes of itself, and what its passes over the network of
//! the guild make of what others published.

use crate::address::{
    address_of_text, address_text, last_peer, peer_of_key, peer_of_text, peer_text, Component,
    Multiaddr, PeerId, Protocol,
};
use crate::book::DHT_TTL_SECONDS;
use crate::dht::{
    bundle_counts, bundle_numbers, bundle_observations, endpoint_numbers, endpoint_observations,
    endpoint_record_observations, forked, highest_endpoint_sequence, highest_number, highest_recovery_sequence, is_current,
    next_sequence_floor, recovery_bundle_counts, recovery_bundle_observations,
    select_current_observation, ObservationModel, SequenceError, SignedBundle, SignedEndpoints,
};
use crate::endpoints::{
    all_zero, occurs_in, published_problem, text_bytes, text_contains, texts, unspecified,
    validate_published_endpoint_for_peer, with_peer, EndpointLimits, EndpointProblem,
};
use crate::hashing::{content_hash, endpoint_key, endpoint_record_key, hash_of};
use crate::ids::Id32;
use crate::ordered::{sorted_texts, TextSet};
use crate::recovery::{
    bundle_ready, locator_ready, validate_ready_bundle, RecoveryLocator, SelectedBundle,
};
use crate::table::KeySet;
use vstd::prelude::*;

verus! {

/// The key under which the endpoints of a node stand in the DHT, if the node's
/// key is one of a peer.
pub open spec fn member_key(member: Id32) -> Option<Seq<u8>> {
    match peer_of_key(member@) {
        Some(peer) => Some(endpoint_key(peer_text(peer))),
        None => None,
    }
}

/// The keys of all these nodes are those of peers.
pub open spec fn all_keyed(members: Seq<Id32>) -> bool {
    forall|i: int| 0 <= i < members.len() ==> member_key(#[trigger] members[i]) is Some
}

/// The key under which the endpoints of a node stand in the DHT.
pub fn member_record_key(member: &Id32) -> (key: Option<Vec<u8>>)
    ensures
        (match key {
            Some(key) => Some(key@),
            None => None,
        }) == member_key(*member),
{
    match PeerId::from_key(&member.0) {
        Some(peer) => Some(endpoint_record_key(peer.text().as_str())),
        None => None,
    }
}

/// Whether the keys of all these nodes are those of peers.
pub fn each_keyed(members: &Vec<Id32>) -> (keyed: bool)
    ensures
        keyed == all_keyed(members@),
{
    let mut i: usize = 0;
    while i < members.len()
        invariant
            i <= members@.len(),
            forall|k: int| 0 <= k < i ==> member_key(#[trigger] members@[k]) is Some,
        decreases members@.len() - i,
    {
        if member_record_key(&members[i]).is_none() {
            assert(member_key(members@[i as int]) is None);
            return false;
        }
        i += 1;
    }
    true
}

/// How long recovery looks for its guild, in milliseconds.
pub const RECOVERY_DISCOVERY_TIMEOUT_MILLIS: u64 = 300_000;

/// How many records of endpoints a peer may hand out at once.
pub const MAX_EXCHANGED_ENDPOINT_RECORDS: usize = 64;

/// Why a node has no endpoints to publish.
#[derive(Clone, Copy, Debug, PartialEq, Eq, Structural)]
pub enum PublicationError {
    /// The node's own identity is none.
    Identity,
    /// An advertised text spells no address.
    Spelling,
    /// An advertised address names another peer.
    OtherIdentity,
    Endpoint(EndpointProblem),
}

/// Some part of an address is the unspecified IP address.
pub open spec fn is_wildcard(address: Seq<Component>) -> bool {
    exists|i: int| 0 <= i < address.len() && unspecified(#[trigger] address[i])
}

fn has_wildcard(address: &Multiaddr) -> (result: bool)
    ensures
        result == is_wildcard(address@),
{
    let mut i: usize = 0;
    while i < address.protocols.len()
        invariant
            i <= address.protocols@.len(),
            forall|k: int| 0 <= k < i ==> !unspecified(#[trigger] address@[k]),
        decreases address.protocols@.len() - i,
    {
        assert(address@[i as int] == address.protocols@[i as int]@);
        let wild = match &address.protocols[i] {
            Protocol::Ip4(octets) => crate::endpoints::ipv4_is(octets, 0),
            Protocol::Ip6(octets) => crate::endpoints::ipv6_is_unspecified(octets),
            _ => false,
        };
        if wild {
            assert(unspecified(address@[i as int]));
            return true;
        }
        i += 1;
    }
    false
}

/// What becomes of one advertised address: nothing where it is a wildcard, else
/// the endpoint that it makes up with the peer.
pub open spec fn endpoint_of(
    limits: EndpointLimits,
    peer: PeerId,
    value: Seq<char>,
) -> Result<Option<Seq<char>>, PublicationError> {
    match address_of_text(value) {
        None => Err(PublicationError::Spelling),
        Some(address) => {
            let full = address_text(with_peer(address, peer));
            if is_wildcard(address) {
                Ok(None)
            } else if last_peer(address) is Some && last_peer(address) != Some(peer) {
                Err(PublicationError::OtherIdentity)
            } else if published_problem(limits, peer, full) is Some {
                Err(PublicationError::Endpoint(published_problem(limits, peer, full)->0))
            } else {
                Ok(Some(full))
            }
        },
    }
}

/// The first problem among advertised addresses.
pub open spec fn first_unusable(
    limits: EndpointLimits,
    peer: PeerId,
    values: Seq<Seq<char>>,
) -> Option<PublicationError>
    decreases values.len(),
{
    if values.len() == 0 {
        None
    } else {
        match first_unusable(limits, peer, values.drop_last()) {
            Some(error) => Some(error),
            None => match endpoint_of(limits, peer, values.last()) {
                Err(error) => Some(error),
                Ok(_) => None,
            },
        }
    }
}

/// The endpoints that advertised addresses make up.
pub open spec fn endpoints_of(
    limits: EndpointLimits,
    peer: PeerId,
    values: Seq<Seq<char>>,
) -> Set<Seq<char>> {
    Set::new(
        |endpoint: Seq<char>|
            exists|i: int|
                0 <= i < values.len() && endpoint_of(limits, peer, #[trigger] values[i]) == Ok::<
                    Option<Seq<char>>,
                    PublicationError,
                >(Some(endpoint)),
    )
}

fn publishable_endpoint(limits: &EndpointLimits, peer: PeerId, value: &str) -> (endpoint: Result<
    Option<String>,
    PublicationError,
>)
    ensures
        (match endpoint {
            Ok(Some(text)) => Ok(Some(text@)),
            Ok(None) => Ok(None),
            Err(error) => Err(error),
        }) == endpoint_of(*limits, peer, value@),
{
    let address = match Multiaddr::parse(value) {
        Some(address) => address,
        None => {
            return Err(PublicationError::Spelling);
        },
    };
    if has_wildcard(&address) {
        return Ok(None);
    }
    let full = match address.last_peer() {
        Some(last) => {
            if !last.equals(&peer) {
                return Err(PublicationError::OtherIdentity);
            }
            address
        },
        None => address.with(Protocol::P2p(peer)),
    };
    let text = full.text();
    match validate_published_endpoint_for_peer(limits, peer, text.as_str()) {
        Ok(canonical) => Ok(Some(canonical.text())),
        Err(error) => Err(PublicationError::Endpoint(error.problem)),
    }
}

proof fn lemma_first_unusable_stays(
    limits: EndpointLimits,
    peer: PeerId,
    values: Seq<Seq<char>>,
    n: int,
)
    requires
        0 <= n <= values.len(),
        first_unusable(limits, peer, values.take(n)) is Some,
    ensures
        first_unusable(limits, peer, values) == first_unusable(limits, peer, values.take(n)),
    decreases values.len() - n,
{
    if n < values.len() {
        assert(values.take(n + 1).drop_last() =~= values.take(n));
        lemma_first_unusable_stays(limits, peer, values, n + 1);
    } else {
        assert(values.take(n) =~= values);
    }
}

/// The endpoints at which the node can be reached now, in order. There may be
/// none: recovery does not need any.
pub fn available_p2p_endpoints(
    limits: &EndpointLimits,
    peer_id: &str,
    advertised: &Vec<String>,
) -> (endpoints: Result<Vec<String>, PublicationError>)
    ensures
        match peer_of_text(peer_id@) {
            None => endpoints == Err::<Vec<String>, PublicationError>(PublicationError::Identity),
            Some(peer) => match endpoints {
                Ok(list) => {
                    &&& first_unusable(*limits, peer, texts(advertised@)) is None
                    &&& texts(list@) == sorted_texts(
                        endpoints_of(*limits, peer, texts(advertised@)),
                    )
                },
                Err(error) => first_unusable(*limits, peer, texts(advertised@)) == Some(error),
            },
        },
{
    let peer = match PeerId::from_text(peer_id) {
        Some(peer) => peer,
        None => {
            return Err(PublicationError::Identity);
        },
    };
    let ghost all = texts(advertised@);
    let mut found = TextSet::new();
    let mut i: usize = 0;
    assert(found@ =~= endpoints_of(*limits, peer, all.take(0)));
    while i < advertised.len()
        invariant
            i <= advertised@.len(),
            all == texts(advertised@),
            found.wf(),
            found@ == endpoints_of(*limits, peer, all.take(i as int)),
            first_unusable(*limits, peer, all.take(i as int)) is None,
            peer_of_text(peer_id@) == Some(peer),
        decreases advertised@.len() - i,
    {
        let ghost taken = all.take(i as int);
        let ghost next = all.take(i + 1);
        proof {
            assert(next.drop_last() =~= taken);
            assert(next.last() == advertised@[i as int]@);
        }
        match publishable_endpoint(limits, peer, advertised[i].as_str()) {
            Ok(endpoint) => {
                let ghost model: Option<Seq<char>> = endpoint_of(
                    *limits,
                    peer,
                    next.last(),
                )->Ok_0;
                if let Some(endpoint) = endpoint {
                    let _ = found.insert(endpoint);
                }
                proof {
                    lemma_one_more_endpoint(*limits, peer, taken, next.last());
                    assert(taken.push(next.last()) =~= next);
                    assert(found@ =~= endpoints_of(*limits, peer, next));
                }
            },
            Err(error) => {
                proof {
                    lemma_first_unusable_stays(*limits, peer, all, i + 1);
                }
                return Err(error);
            },
        }
        i += 1;
    }
    assert(all.take(i as int) =~= all);
    let list = found.to_vec();
    proof {
        crate::ordered::lemma_text_rank_tells_apart();
        found.lemma_sorted();
        assert(texts(list@) =~= crate::ordered::models(list@));
    }
    Ok(list)
}

proof fn lemma_one_more_endpoint(
    limits: EndpointLimits,
    peer: PeerId,
    values: Seq<Seq<char>>,
    value: Seq<char>,
)
    ensures
        endpoints_of(limits, peer, values.push(value)) == (match endpoint_of(limits, peer, value) {
            Ok(Some(endpoint)) => endpoints_of(limits, peer, values).insert(endpoint),
            _ => endpoints_of(limits, peer, values),
        }),
{
    let before = endpoints_of(limits, peer, values);
    let after = endpoints_of(limits, peer, values.push(value));
    let all = values.push(value);
    assert forall|e: Seq<char>| after.contains(e) == (before.contains(e) || endpoint_of(
        limits,
        peer,
        value,
    ) == Ok::<Option<Seq<char>>, PublicationError>(Some(e))) by {
        if after.contains(e) {
            let k = choose|k: int|
                0 <= k < all.len() && endpoint_of(limits, peer, #[trigger] all[k]) == Ok::<
                    Option<Seq<char>>,
                    PublicationError,
                >(Some(e));
            if k < values.len() {
                assert(values[k] == all[k]);
            }
        }
        if before.contains(e) {
            let k = choose|k: int|
                0 <= k < values.len() && endpoint_of(limits, peer, #[trigger] values[k]) == Ok::<
                    Option<Seq<char>>,
                    PublicationError,
                >(Some(e));
            assert(all[k] == values[k]);
        }
        assert(all[values.len() as int] == value);
    }
    match endpoint_of(limits, peer, value) {
        Ok(Some(endpoint)) => assert(after =~= before.insert(endpoint)),
        _ => assert(after =~= before),
    }
}

/// The endpoints of a node that others are told of: there must be some.
pub fn advertised_p2p_endpoints(available: Vec<String>) -> (endpoints: Option<Vec<String>>)
    ensures
        endpoints == (if available@.len() == 0 {
            None
        } else {
            Some(available)
        }),
{
    if available.len() == 0 {
        None
    } else {
        Some(available)
    }
}

/// Until when a record is good that is published now; no answer where there is
/// no such time.
pub fn publication_expiry(now: u64) -> (expires: Option<u64>)
    ensures
        expires == (if now + DHT_TTL_SECONDS <= u64::MAX {
            Some((now + DHT_TTL_SECONDS) as u64)
        } else {
            None
        }),
{
    now.checked_add(DHT_TTL_SECONDS)
}

/// The number for the next of a node's records, one above the highest that the
/// network knows of.
pub open spec fn next_number(numbers: Seq<ObservationModel>) -> Result<u64, SequenceError> {
    let highest = numbers[choose|i: int| is_current(numbers, i)].sequence;
    if forked(numbers) {
        Err(SequenceError::Forked)
    } else if numbers.len() == 0 {
        Ok(1)
    } else if highest == u64::MAX {
        Err(SequenceError::Exhausted)
    } else {
        Ok((highest + 1) as u64)
    }
}

proof fn lemma_next_number(numbers: Seq<ObservationModel>, highest: Option<u64>)
    requires
        !forked(numbers),
        highest_number(numbers, highest),
    ensures
        next_number(numbers) == (match highest {
            Some(highest) => if highest == u64::MAX {
                Err(SequenceError::Exhausted)
            } else {
                Ok((highest + 1) as u64)
            },
            None => Ok(1),
        }),
{
    if let Some(highest) = highest {
        let i = choose|i: int| #[trigger]
            is_current(numbers, i) && numbers[i].sequence == highest;
        let j = choose|j: int| is_current(numbers, j);
        assert(is_current(numbers, i) && is_current(numbers, j));
        assert(numbers[i].sequence <= numbers[j].sequence);
        assert(numbers[j].sequence <= numbers[i].sequence);
    }
}

proof fn lemma_some_is_current(numbers: Seq<ObservationModel>)
    requires
        numbers.len() > 0,
    ensures
        exists|i: int| is_current(numbers, i),
    decreases numbers.len(),
{
    let last = numbers.len() - 1;
    if last == 0 {
        assert(is_current(numbers, 0));
    } else {
        let before = numbers.drop_last();
        lemma_some_is_current(before);
        let k = choose|k: int| is_current(before, k);
        if before[k].sequence < numbers[last].sequence {
            assert forall|j: int| 0 <= j < last implies (#[trigger] numbers[j]).sequence
                < numbers[last].sequence by {
                assert(numbers[j] == before[j]);
            }
            assert(is_current(numbers, last));
        } else {
            assert forall|j: int| 0 <= j < numbers.len() implies (#[trigger] numbers[j]).sequence
                <= numbers[k].sequence by {
                if j < last {
                    assert(numbers[j] == before[j]);
                }
            }
            assert forall|j: int| 0 <= j < k implies (#[trigger] numbers[j]).sequence
                < numbers[k].sequence by {
                assert(numbers[j] == before[j]);
            }
            assert(is_current(numbers, k));
        }
    }
}

/// The number for the next record is above all that the network knows of.
pub proof fn the_next_number_is_new(numbers: Seq<ObservationModel>, i: int)
    requires
        0 <= i < numbers.len(),
        next_number(numbers) is Ok,
    ensures
        numbers[i].sequence < next_number(numbers)->Ok_0,
{
    lemma_some_is_current(numbers);
    let k = choose|k: int| is_current(numbers, k);
    assert(is_current(numbers, k));
    assert(numbers[i].sequence <= numbers[k].sequence);
}

/// The number for the next record of a node's endpoints.
pub fn endpoint_sequence_floor(publisher: &Id32, records: &Vec<Option<SignedEndpoints>>) -> (floor:
    Result<u64, SequenceError>)
    ensures
        floor == next_number(endpoint_numbers(*publisher, records@)),
{
    let highest = match highest_endpoint_sequence(publisher, records) {
        Ok(highest) => highest,
        Err(error) => {
            return Err(error);
        },
    };
    proof {
        lemma_next_number(endpoint_numbers(*publisher, records@), highest);
    }
    next_sequence_floor(highest)
}

/// The number for the next sealed recovery record of a node.
pub fn recovery_sequence_floor(
    provider_peer_id: &str,
    subject: &Id32,
    records: &Vec<Option<SignedBundle>>,
) -> (floor: Result<u64, SequenceError>)
    ensures
        floor == next_number(bundle_numbers(provider_peer_id@, *subject, records@)),
{
    let highest = match highest_recovery_sequence(provider_peer_id, subject, records) {
        Ok(highest) => highest,
        Err(error) => {
            return Err(error);
        },
    };
    proof {
        lemma_next_number(bundle_numbers(provider_peer_id@, *subject, records@), highest);
    }
    next_sequence_floor(highest)
}

/// The current record of a publisher's endpoints among those that were found.
pub fn select_endpoint_record(
    limits: &EndpointLimits,
    publisher: &Id32,
    records: &Vec<Option<SignedEndpoints>>,
    now: u64,
) -> (selected: Result<Option<Vec<u8>>, SequenceError>)
    ensures
        ({
            let all = endpoint_observations(*limits, *publisher, records@, now);
            match selected {
                Err(error) => error == SequenceError::Forked && forked(all),
                Ok(None) => all.len() == 0,
                Ok(Some(bytes)) => !forked(all) && exists|i: int| #[trigger]
                    is_current(all, i) && bytes@ == all[i].bytes,
            }
        }),
        forked(endpoint_observations(*limits, *publisher, records@, now)) ==> selected is Err,
{
    let observations = endpoint_record_observations(limits, publisher, records, now);
    select_current_observation(&observations)
}

/// The current sealed recovery record of a provider among those that were
/// found.
pub fn select_recovery_bundle(
    provider_peer_id: &str,
    subject: &Id32,
    records: &Vec<Option<SignedBundle>>,
    now: u64,
) -> (selected: Result<Option<Vec<u8>>, SequenceError>)
    ensures
        ({
            let all = bundle_observations(provider_peer_id@, *subject, records@, now);
            match selected {
                Err(error) => error == SequenceError::Forked && forked(all),
                Ok(None) => all.len() == 0,
                Ok(Some(bytes)) => !forked(all) && exists|i: int| #[trigger]
                    is_current(all, i) && bytes@ == all[i].bytes,
            }
        }),
        forked(bundle_observations(provider_peer_id@, *subject, records@, now))
            ==> selected is Err,
{
    let observations = recovery_bundle_observations(provider_peer_id, subject, records, now);
    select_current_observation(&observations)
}

/// Under what the observed recovery records of a provider are kept: the node
/// that they are about, and the hash of the provider.
pub fn recovery_record_id(subject: &Id32, provider_peer_id: &str) -> (id: Vec<u8>)
    ensures
        id@ == subject@ + hash_of(text_bytes(provider_peer_id@)),
{
    let provider = content_hash(provider_peer_id.as_bytes());
    let mut id: Vec<u8> = Vec::new();
    let mut i: usize = 0;
    while i < 32
        invariant
            i <= 32,
            id@ == subject@.take(i as int),
        decreases 32 - i,
    {
        id.push(subject.0[i]);
        assert(id@ =~= subject@.take(i + 1));
        i += 1;
    }
    let mut k: usize = 0;
    assert(id@ =~= subject@ + provider@.take(0));
    while k < 32
        invariant
            k <= 32,
            id@ == subject@ + provider@.take(k as int),
        decreases 32 - k,
    {
        id.push(provider.0[k]);
        assert(id@ =~= subject@ + provider@.take(k + 1));
        k += 1;
    }
    assert(provider@.take(32) =~= provider@);
    id
}

/// An observed recovery record that the node has kept.
pub struct RetainedRecord {
    /// The hash of the provider under which it is kept.
    pub provider_hash: Id32,
    /// The record; none where it cannot be decoded.
    pub bundle: Option<SignedBundle>,
}

/// Why the records that the node has kept are of no use.
#[derive(Clone, Copy, Debug, PartialEq, Eq, Structural)]
pub enum RetainedError {
    Undecodable,
    /// The publisher's key is none.
    Identity,
    /// It is kept under another provider.
    OtherProvider,
}

/// What is wrong with one kept record.
pub open spec fn retained_problem(record: RetainedRecord) -> Option<RetainedError> {
    match record.bundle {
        None => Some(RetainedError::Undecodable),
        Some(bundle) => match peer_of_key(bundle.publisher@) {
            None => Some(RetainedError::Identity),
            Some(peer) => if hash_of(text_bytes(peer_text(peer))) != record.provider_hash@ {
                Some(RetainedError::OtherProvider)
            } else {
                None
            },
        },
    }
}

/// The first problem among kept records.
pub open spec fn first_retained_problem(records: Seq<RetainedRecord>) -> Option<RetainedError>
    decreases records.len(),
{
    if records.len() == 0 {
        None
    } else {
        match first_retained_problem(records.drop_last()) {
            Some(error) => Some(error),
            None => retained_problem(records.last()),
        }
    }
}

/// The provider that a kept record is from.
pub open spec fn retained_provider(record: RetainedRecord) -> Seq<char> {
    peer_text(peer_of_key(record.bundle->0.publisher@)->0)
}

/// The places of the kept records about a node that still count.
pub open spec fn retained_places(
    records: Seq<RetainedRecord>,
    subject: Id32,
    now: u64,
) -> Seq<usize>
    decreases records.len(),
{
    if records.len() == 0 {
        Seq::empty()
    } else {
        let before = retained_places(records.drop_last(), subject, now);
        if bundle_counts(
            retained_provider(records.last()),
            subject,
            records.last().bundle->0@,
            now,
        ) {
            before.push((records.len() - 1) as usize)
        } else {
            before
        }
    }
}

/// The kept recovery records about a node that still count, each with its
/// provider.
pub fn retained_recovery_bundles(
    subject: &Id32,
    records: &Vec<RetainedRecord>,
    now: u64,
) -> (kept: Result<Vec<(String, usize)>, RetainedError>)
    ensures
        match kept {
            Err(error) => first_retained_problem(records@) == Some(error),
            Ok(kept) => {
                let places = retained_places(records@, *subject, now);
                &&& first_retained_problem(records@) is None
                &&& kept@.len() == places.len()
                &&& forall|i: int|
                    0 <= i < kept@.len() ==> (#[trigger] kept@[i]).1 == places[i] && kept@[i].1
                        < records@.len() && kept@[i].0@ == retained_provider(
                        records@[places[i] as int],
                    )
            },
        },
{
    let mut kept: Vec<(String, usize)> = Vec::new();
    let mut i: usize = 0;
    assert(records@.take(0) =~= Seq::empty());
    while i < records.len()
        invariant
            i <= records@.len(),
            first_retained_problem(records@.take(i as int)) is None,
            kept@.len() == retained_places(records@.take(i as int), *subject, now).len(),
            forall|k: int|
                0 <= k < kept@.len() ==> (#[trigger] kept@[k]).1 == retained_places(
                    records@.take(i as int),
                    *subject,
                    now,
                )[k] && kept@[k].1 < i && kept@[k].0@ == retained_provider(
                    records@[kept@[k].1 as int],
                ),
        decreases records@.len() - i,
    {
        let ghost next = records@.take(i + 1);
        proof {
            assert(next.drop_last() =~= records@.take(i as int));
            assert(next.last() == records@[i as int]);
        }
        let record = &records[i];
        let problem = match &record.bundle {
            None => Some(RetainedError::Undecodable),
            Some(bundle) => {
                match PeerId::from_key(&bundle.publisher.0) {
                    None => Some(RetainedError::Identity),
                    Some(peer) => {
                        let provider = peer.text();
                        let hash = content_hash(provider.as_str().as_bytes());
                        if !hash.equals(&record.provider_hash) {
                            Some(RetainedError::OtherProvider)
                        } else {
                            if recovery_bundle_counts(provider.as_str(), subject, bundle, now) {
                                kept.push((provider, i));
                            }
                            None
                        }
                    },
                }
            },
        };
        if let Some(error) = problem {
            proof {
                assert(retained_problem(next.last()) == Some(error));
                lemma_first_retained_stays(records@, i + 1);
            }
            return Err(error);
        }
        i += 1;
    }
    assert(records@.take(i as int) =~= records@);
    Ok(kept)
}

proof fn lemma_first_retained_stays(records: Seq<RetainedRecord>, n: int)
    requires
        0 <= n <= records.len(),
        first_retained_problem(records.take(n)) is Some,
    ensures
        first_retained_problem(records) == first_retained_problem(records.take(n)),
    decreases records.len() - n,
{
    if n < records.len() {
        assert(records.take(n + 1).drop_last() =~= records.take(n));
        lemma_first_retained_stays(records, n + 1);
    } else {
        assert(records.take(n) =~= records);
    }
}

/// What a provider's answer came to.
#[derive(Clone, Copy, Debug, PartialEq, Eq)]
pub enum ProviderAnswer {
    /// No answer, or no record that counts.
    Nothing,
    /// Records that contradict each other.
    Conflicting,
    /// A record by this publisher that does not stand up to a closer look.
    Unfit { publisher: Id32 },
    /// A record by this publisher, good until then.
    Fit { publisher: Id32, expires_at_unix_seconds: u64 },
}

/// What a provider's answer comes to, from the record that was selected and
/// what was sealed in it, where a state is to be recoverable.
pub open spec fn ready_answer(
    limits: EndpointLimits,
    local: Id32,
    provider: Seq<char>,
    checkpoint_hash: Id32,
    selected: SelectedBundle,
    opened: Option<RecoveryLocator>,
    authority: bool,
    now: u64,
) -> ProviderAnswer {
    match selected {
        SelectedBundle::Nothing => ProviderAnswer::Nothing,
        SelectedBundle::Conflicting => ProviderAnswer::Conflicting,
        SelectedBundle::Bundle(bundle) => if bundle_ready(
            limits,
            local,
            provider,
            checkpoint_hash,
            bundle,
            opened,
            authority,
            now,
        ) {
            ProviderAnswer::Fit {
                publisher: bundle.publisher,
                expires_at_unix_seconds: bundle.expires_at_unix_seconds,
            }
        } else {
            ProviderAnswer::Unfit { publisher: bundle.publisher }
        },
    }
}

/// What was selected of a provider's records, where the one that is current
/// could be decoded: it is taken if it still counts.
pub fn selected_bundle(
    provider: &str,
    subject: &Id32,
    current: Option<SignedBundle>,
    now: u64,
) -> (selected: SelectedBundle)
    ensures
        selected == (match current {
            Some(bundle) => if bundle_counts(provider@, *subject, bundle@, now) {
                SelectedBundle::Bundle(bundle)
            } else {
                SelectedBundle::Nothing
            },
            None => SelectedBundle::Nothing,
        }),
{
    match current {
        Some(bundle) => {
            if recovery_bundle_counts(provider, subject, &bundle, now) {
                SelectedBundle::Bundle(bundle)
            } else {
                SelectedBundle::Nothing
            }
        },
        None => SelectedBundle::Nothing,
    }
}

/// What a provider's answer comes to, from the record that was selected and
/// what was sealed in it. `None` is what could not be opened or decoded, and
/// `authority` says that the state gives the publisher the right it claims.
pub fn provider_answer(
    limits: &EndpointLimits,
    local: &Id32,
    provider: &str,
    checkpoint_hash: &Id32,
    selected: &SelectedBundle,
    opened: Option<&RecoveryLocator>,
    authority: bool,
    now: u64,
) -> (answer: ProviderAnswer)
    ensures
        answer == ready_answer(
            *limits,
            *local,
            provider@,
            *checkpoint_hash,
            *selected,
            (match opened {
                Some(locator) => Some(*locator),
                None => None,
            }),
            authority,
            now,
        ),
{
    match selected {
        SelectedBundle::Nothing => ProviderAnswer::Nothing,
        SelectedBundle::Conflicting => ProviderAnswer::Conflicting,
        SelectedBundle::Bundle(bundle) => match validate_ready_bundle(
            limits,
            local,
            provider,
            checkpoint_hash,
            bundle,
            opened,
            authority,
            now,
        ) {
            Ok(()) => ProviderAnswer::Fit {
                publisher: bundle.publisher,
                expires_at_unix_seconds: bundle.expires_at_unix_seconds,
            },
            Err(_) => ProviderAnswer::Unfit { publisher: bundle.publisher },
        },
    }
}

/// A pass over the providers of records about the node, and over what the node
/// has kept itself of such records.
pub struct ProviderRound {
    pub rejected: TextSet,
    pub counted: KeySet<Id32>,
    /// Who stands behind the node's state, and until when.
    pub confirmations: Vec<(Id32, u64)>,
}

/// What a pass is, for contracts.
#[verifier::ext_equal]
pub struct RoundModel {
    pub rejected: Set<Seq<char>>,
    pub counted: Set<Id32>,
    pub confirmations: Seq<(Id32, u64)>,
}

impl RoundModel {
    /// One publisher is counted.
    pub open spec fn counting(self, publisher: Id32, expires: u64) -> RoundModel {
        RoundModel {
            counted: self.counted.insert(publisher),
            confirmations: self.confirmations.push((publisher, expires)),
            ..self
        }
    }

    /// A provider has answered.
    pub open spec fn answered(self, provider: Seq<char>, answer: ProviderAnswer) -> RoundModel {
        match answer {
            ProviderAnswer::Conflicting => RoundModel {
                rejected: self.rejected.insert(provider),
                ..self
            },
            ProviderAnswer::Fit { publisher, expires_at_unix_seconds } => self.counting(
                publisher,
                expires_at_unix_seconds,
            ),
            _ => self,
        }
    }

    /// A record that the node has kept is looked at: its provider has not
    /// contradicted itself, and its publisher does not count yet.
    pub open spec fn looks_at_kept(self, provider: Seq<char>, publisher: Id32) -> bool {
        !self.rejected.contains(provider) && !self.counted.contains(publisher)
    }

    /// Each publisher that was counted confirms, and no other.
    pub open spec fn faithful(self) -> bool {
        forall|publisher: Id32| #[trigger]
            self.counted.contains(publisher) <==> exists|i: int|
                0 <= i < self.confirmations.len() && (#[trigger] self.confirmations[i]).0
                    == publisher
    }
}

impl ProviderRound {
    pub open spec fn view(&self) -> RoundModel {
        RoundModel {
            rejected: self.rejected@,
            counted: self.counted@,
            confirmations: self.confirmations@,
        }
    }

    pub open spec fn wf(&self) -> bool {
        &&& self.rejected.wf()
        &&& self.counted.wf()
        &&& self@.faithful()
    }

    pub fn new() -> (round: Self)
        ensures
            round.wf(),
            round@ == (RoundModel {
                rejected: Set::empty(),
                counted: Set::empty(),
                confirmations: Seq::empty(),
            }),
    {
        ProviderRound {
            rejected: TextSet::new(),
            counted: KeySet::new(),
            confirmations: Vec::new(),
        }
    }

    fn count(&mut self, publisher: Id32, expires: u64)
        requires
            old(self).wf(),
        ensures
            final(self).wf(),
            final(self)@ == old(self)@.counting(publisher, expires),
    {
        self.counted.insert(publisher);
        self.confirmations.push((publisher, expires));
        proof {
            let before = old(self)@;
            let after = self@;
            assert forall|p: Id32| #[trigger] after.counted.contains(p) <==> (exists|i: int|
                0 <= i < after.confirmations.len() && (#[trigger] after.confirmations[i]).0
                    == p) by {
                if before.counted.contains(p) {
                    let k = choose|k: int|
                        0 <= k < before.confirmations.len() && (
                        #[trigger] before.confirmations[k]).0 == p;
                    assert(after.confirmations[k] == before.confirmations[k]);
                }
                assert(after.confirmations[before.confirmations.len() as int].0 == publisher);
                if exists|i: int|
                    0 <= i < after.confirmations.len() && (#[trigger] after.confirmations[i]).0
                        == p {
                    let k = choose|k: int|
                        0 <= k < after.confirmations.len() && (
                        #[trigger] after.confirmations[k]).0 == p;
                    if k < before.confirmations.len() {
                        assert(after.confirmations[k] == before.confirmations[k]);
                        assert(before.counted.contains(p));
                    }
                }
            }
        }
    }

    /// Takes the answer of a provider.
    pub fn answer(&mut self, provider: String, answer: ProviderAnswer)
        requires
            old(self).wf(),
        ensures
            final(self).wf(),
            final(self)@ == old(self)@.answered(provider@, answer),
    {
        match answer {
            ProviderAnswer::Conflicting => {
                let _ = self.rejected.insert(provider);
                proof {
                    let before = old(self)@;
                    let after = self@;
                    assert(after.confirmations == before.confirmations);
                    assert forall|p: Id32| #[trigger] after.counted.contains(p) <==> (exists|i: int|
                        0 <= i < after.confirmations.len() && (#[trigger] after.confirmations[i]).0
                            == p) by {
                        assert(before.counted.contains(p) == after.counted.contains(p));
                    }
                }
            },
            ProviderAnswer::Fit { publisher, expires_at_unix_seconds } => {
                self.count(publisher, expires_at_unix_seconds);
            },
            _ => {},
        }
    }

    /// Whether a record that the node has kept is looked at.
    pub fn wants_kept(&self, provider: &String, publisher: &Id32) -> (wanted: bool)
        requires
            self.wf(),
        ensures
            wanted == self@.looks_at_kept(provider@, *publisher),
    {
        !self.rejected.contains(provider) && !self.counted.contains(*publisher)
    }

    /// Counts a record that the node has kept, where it is to be looked at and
    /// stands up to that.
    pub fn keep(&mut self, provider: &String, publisher: Id32, expires: u64, fit: bool)
        requires
            old(self).wf(),
        ensures
            final(self).wf(),
            final(self)@ == (if fit && old(self)@.looks_at_kept(provider@, publisher) {
                old(self)@.counting(publisher, expires)
            } else {
                old(self)@
            }),
    {
        if fit && self.wants_kept(provider, &publisher) {
            self.count(publisher, expires);
        }
    }
}

/// What the node has kept never speaks for a provider that contradicts itself,
/// and never twice for a publisher.
pub proof fn kept_records_only_fill_gaps(
    round: RoundModel,
    provider: Seq<char>,
    answer: ProviderAnswer,
    publisher: Id32,
)
    ensures
        answer == ProviderAnswer::Conflicting ==> !round.answered(provider, answer).looks_at_kept(
            provider,
            publisher,
        ),
        round.looks_at_kept(provider, publisher) ==> !round.counting(publisher, 0).looks_at_kept(
            provider,
            publisher,
        ),
        answer matches ProviderAnswer::Fit { publisher: by, .. } && by == publisher
            ==> !round.answered(provider, answer).looks_at_kept(provider, publisher),
{
}

/// The providers to ask: all but the node itself.
pub open spec fn others(providers: Seq<Seq<char>>, local: Seq<char>) -> Seq<Seq<char>>
    decreases providers.len(),
{
    if providers.len() == 0 {
        Seq::empty()
    } else {
        let before = others(providers.drop_last(), local);
        if providers.last() == local {
            before
        } else {
            before.push(providers.last())
        }
    }
}

/// The providers to ask: all but the node itself.
pub fn providers_to_ask(providers: &Vec<String>, local: &String) -> (asked: Vec<String>)
    ensures
        texts(asked@) == others(texts(providers@), local@),
{
    let mut asked: Vec<String> = Vec::new();
    let ghost all = texts(providers@);
    let mut i: usize = 0;
    assert(all.take(0) =~= Seq::empty());
    assert(texts(asked@) =~= Seq::empty());
    while i < providers.len()
        invariant
            i <= providers@.len(),
            all == texts(providers@),
            texts(asked@) == others(all.take(i as int), local@),
        decreases providers@.len() - i,
    {
        let ghost before = texts(asked@);
        proof {
            assert(all.take(i + 1).drop_last() =~= all.take(i as int));
            assert(all.take(i + 1).last() == providers@[i as int]@);
        }
        if providers[i] != *local {
            let copy = providers[i].clone();
            asked.push(copy);
            assert(texts(asked@) =~= before.push(copy@));
        }
        i += 1;
    }
    assert(all.take(i as int) =~= all);
    asked
}

/// The members of the guild but the node itself.
pub open spec fn other_members(members: Seq<Id32>, local: Id32) -> Seq<Id32>
    decreases members.len(),
{
    if members.len() == 0 {
        Seq::empty()
    } else {
        let before = other_members(members.drop_last(), local);
        if members.last() == local {
            before
        } else {
            before.push(members.last())
        }
    }
}

/// The members of an active guild whose endpoints are looked up: all but the
/// node itself.
pub fn members_to_ask(active: bool, members: &Vec<Id32>, local: &Id32) -> (asked: Vec<Id32>)
    ensures
        asked@ == (if active {
            other_members(members@, *local)
        } else {
            Seq::empty()
        }),
{
    let mut asked: Vec<Id32> = Vec::new();
    if !active {
        return asked;
    }
    let mut i: usize = 0;
    assert(members@.take(0) =~= Seq::empty());
    while i < members.len()
        invariant
            i <= members@.len(),
            asked@ == other_members(members@.take(i as int), *local),
        decreases members@.len() - i,
    {
        assert(members@.take(i + 1).drop_last() =~= members@.take(i as int));
        if !members[i].equals(local) {
            asked.push(members[i]);
        }
        i += 1;
    }
    assert(members@.take(i as int) =~= members@);
    asked
}

/// Whether an identity is among some.
pub fn is_member(members: &Vec<Id32>, id: &Id32) -> (result: bool)
    ensures
        result == members@.contains(*id),
{
    let mut i: usize = 0;
    while i < members.len()
        invariant
            i <= members@.len(),
            forall|k: int| 0 <= k < i ==> #[trigger] members@[k] != *id,
        decreases members@.len() - i,
    {
        if members[i].equals(id) {
            return true;
        }
        i += 1;
    }
    false
}

/// What becomes of a backup job whose commit did not succeed.
#[derive(Clone, Copy, Debug, PartialEq, Eq, Structural)]
pub enum JobFailure {
    /// It has failed: a host of parity is full.
    Failed,
    /// It is tried again.
    Deferred,
}

/// What becomes of a backup job, from the message of what went wrong.
pub fn job_failure(message: &str) -> (failure: JobFailure)
    ensures
        failure == (if occurs_in("parity storage budget is exhausted"@, message@) {
            JobFailure::Failed
        } else {
            JobFailure::Deferred
        }),
{
    if text_contains(message, "parity storage budget is exhausted") {
        JobFailure::Failed
    } else {
        JobFailure::Deferred
    }
}

/// What recovery does after an attempt that failed.
#[derive(Clone, Copy, Debug, PartialEq, Eq, Structural)]
pub enum RecoveryStep {
    Retry,
    TimedOut,
    GiveUp,
}

/// What recovery does after an attempt that failed: only where the guild was
/// not found yet is there another, until the time is up. Times are
/// milliseconds of a steady clock.
pub fn recovery_step(not_found_yet: bool, started: u64, now: u64) -> (step: RecoveryStep)
    ensures
        step == (if !not_found_yet {
            RecoveryStep::GiveUp
        } else if now >= started.saturating_add(RECOVERY_DISCOVERY_TIMEOUT_MILLIS) {
            RecoveryStep::TimedOut
        } else {
            RecoveryStep::Retry
        }),
{
    if !not_found_yet {
        RecoveryStep::GiveUp
    } else if now >= started.saturating_add(RECOVERY_DISCOVERY_TIMEOUT_MILLIS) {
        RecoveryStep::TimedOut
    } else {
        RecoveryStep::Retry
    }
}

/// The endpoints of one member, and until when they are good.
pub struct MemberEndpoints {
    pub endpoints: Vec<String>,
    pub expires_at_unix_seconds: Option<u64>,
}

/// The endpoints of a member in a recovered roster: those of its current
/// record, else those that its recovery record names, else none.
pub fn roster_endpoints(
    named: Option<(Vec<String>, u64)>,
    current: Option<(Vec<String>, u64)>,
) -> (member: MemberEndpoints)
    ensures
        ({
            let from = if current is Some {
                current
            } else {
                named
            };
            match from {
                Some((endpoints, expires)) => member.endpoints == endpoints
                    && member.expires_at_unix_seconds == Some(expires),
                None => member.endpoints@.len() == 0 && member.expires_at_unix_seconds is None,
            }
        }),
{
    match current {
        Some((endpoints, expires)) => MemberEndpoints {
            endpoints,
            expires_at_unix_seconds: Some(expires),
        },
        None => match named {
            Some((endpoints, expires)) => MemberEndpoints {
                endpoints,
                expires_at_unix_seconds: Some(expires),
            },
            None => MemberEndpoints { endpoints: Vec::new(), expires_at_unix_seconds: None },
        },
    }
}

/// What was recovered.
#[derive(Clone, Copy, Debug)]
pub struct DhtRecoveryResult {
    pub guild_id: Id32,
    pub checkpoint_hash: Id32,
    pub generation: u64,
    pub revision_id: Option<u128>,
}

/// The providers that are asked are all that were found but the node itself, in
/// their order.
pub proof fn everyone_else_is_asked(providers: Seq<Seq<char>>, local: Seq<char>)
    ensures
        others(providers, local) == providers.filter(|provider: Seq<char>| provider != local),
        !others(providers, local).contains(local),
    decreases providers.len(),
{
    reveal(Seq::filter);
    if providers.len() > 0 {
        let before = others(providers.drop_last(), local);
        everyone_else_is_asked(providers.drop_last(), local);
        let after = others(providers, local);
        if after.contains(local) {
            let k = choose|k: int| 0 <= k < after.len() && after[k] == local;
            assert(before[k] == local);
        }
    }
}

/// The next number is one above the highest that was seen, and the first where
/// none was. Two records under one number with different hashes are a fork, and
/// leave no number; neither does the highest number of all.
pub proof fn the_next_number_follows_the_highest(numbers: Seq<ObservationModel>)
    ensures
        ({
            let fork = exists|i: int, j: int|
                0 <= i < numbers.len() && 0 <= j < numbers.len() && (
                #[trigger] numbers[i]).sequence == (#[trigger] numbers[j]).sequence && hash_of(
                    numbers[i].bytes,
                ) != hash_of(numbers[j].bytes);
            match next_number(numbers) {
                Ok(number) => {
                    &&& !fork
                    &&& numbers.len() == 0 ==> number == 1
                    &&& numbers.len() > 0 ==> exists|i: int|
                        0 <= i < numbers.len() && (#[trigger] numbers[i]).sequence + 1 == number
                    &&& forall|i: int|
                        0 <= i < numbers.len() ==> (#[trigger] numbers[i]).sequence < number
                },
                Err(SequenceError::Forked) => fork,
                Err(_) => !fork && exists|i: int|
                    0 <= i < numbers.len() && (#[trigger] numbers[i]).sequence == u64::MAX,
            }
        }),
{
    if numbers.len() > 0 {
        lemma_some_is_current(numbers);
        let k = choose|k: int| is_current(numbers, k);
        assert(is_current(numbers, k));
        if next_number(numbers) is Ok {
            assert forall|i: int| 0 <= i < numbers.len() implies (#[trigger] numbers[i]).sequence
                < next_number(numbers)->Ok_0 by {
                the_next_number_is_new(numbers, i);
            }
        }
        if forked(numbers) {
            let (i, j) = choose|i: int, j: int|
                0 <= i < numbers.len() && 0 <= j < numbers.len() && (
                #[trigger] numbers[i]).sequence == (#[trigger] numbers[j]).sequence && hash_of(
                    numbers[i].bytes,
                ) != hash_of(numbers[j].bytes);
            assert(numbers[i].sequence == numbers[j].sequence);
        }
    }
}

/// An advertised address makes up the endpoint that it is with the node at its end.
/// One of every address makes up none; one that is no address, ends in another, or
/// makes up an endpoint that is refused, is told.
pub proof fn an_advertised_address_makes_up_an_endpoint(
    limits: EndpointLimits,
    peer: PeerId,
    value: Seq<char>,
    address: Seq<Component>,
)
    ensures
        address_of_text(value) is None ==> endpoint_of(limits, peer, value) == Err::<
            Option<Seq<char>>,
            PublicationError,
        >(PublicationError::Spelling),
        address_of_text(value) == Some(address) ==> {
            let outcome = endpoint_of(limits, peer, value);
            let wild = exists|i: int|
                0 <= i < address.len() && match #[trigger] address[i] {
                    Component::Ip4(octets) => octets == seq![0u8, 0u8, 0u8, 0u8],
                    Component::Ip6(octets) => all_zero(octets),
                    _ => false,
                };
            let ends = address.len() > 0 && address.last() == Component::P2p(peer);
            let foreign = address.len() > 0 && address.last() is P2p && !ends;
            let full = if ends {
                address
            } else {
                address.push(Component::P2p(peer))
            };
            &&& wild ==> outcome == Ok::<Option<Seq<char>>, PublicationError>(None)
            &&& !wild && foreign ==> outcome == Err::<Option<Seq<char>>, PublicationError>(
                PublicationError::OtherIdentity,
            )
            &&& !wild && !foreign ==> match published_problem(limits, peer, address_text(full)) {
                Some(problem) => outcome == Err::<Option<Seq<char>>, PublicationError>(
                    PublicationError::Endpoint(problem),
                ),
                None => outcome == Ok::<Option<Seq<char>>, PublicationError>(
                    Some(address_text(full)),
                ),
            }
        },
{
    if address_of_text(value) == Some(address) {
        assert forall|i: int| 0 <= i < address.len() implies (match #[trigger] address[i] {
            Component::Ip4(octets) => octets == seq![0u8, 0u8, 0u8, 0u8],
            Component::Ip6(octets) => all_zero(octets),
            _ => false,
        }) == unspecified(address[i]) by {}
        if is_wildcard(address) {
            let i = choose|i: int| 0 <= i < address.len() && unspecified(#[trigger] address[i]);
            assert(match address[i] {
                Component::Ip4(octets) => octets == seq![0u8, 0u8, 0u8, 0u8],
                Component::Ip6(octets) => all_zero(octets),
                _ => false,
            });
        }
    }
}

/// The first advertised address that cannot be used is told; where all can, their
/// endpoints are published, and no others.
pub proof fn all_usable_addresses_are_published(
    limits: EndpointLimits,
    peer: PeerId,
    values: Seq<Seq<char>>,
    at: int,
    endpoint: Seq<char>,
)
    ensures
        first_unusable(limits, peer, values) is None <==> (forall|i: int|
            0 <= i < values.len() ==> endpoint_of(limits, peer, #[trigger] values[i]) is Ok),
        0 <= at < values.len() && endpoint_of(limits, peer, values[at]) is Err && (forall|i: int|
            0 <= i < at ==> endpoint_of(limits, peer, #[trigger] values[i]) is Ok)
            ==> first_unusable(limits, peer, values) == Some(
            endpoint_of(limits, peer, values[at])->Err_0,
        ),
        0 <= at < values.len() && endpoint_of(limits, peer, values[at]) == Ok::<
            Option<Seq<char>>,
            PublicationError,
        >(Some(endpoint)) ==> endpoints_of(limits, peer, values).contains(endpoint),
        endpoints_of(limits, peer, values).contains(endpoint) ==> exists|i: int|
            0 <= i < values.len() && endpoint_of(limits, peer, #[trigger] values[i]) == Ok::<
                Option<Seq<char>>,
                PublicationError,
            >(Some(endpoint)),
    decreases values.len(),
{
    if values.len() > 0 {
        let before = values.drop_last();
        all_usable_addresses_are_published(limits, peer, before, at, endpoint);
        assert(values.last() == values[values.len() - 1]);
        assert(forall|i: int| 0 <= i < before.len() ==> before[i] == values[i]);
        if forall|i: int|
            0 <= i < before.len() ==> endpoint_of(limits, peer, #[trigger] before[i]) is Ok {
            assert forall|i: int| 0 <= i < values.len() - 1 implies endpoint_of(
                limits,
                peer,
                #[trigger] values[i],
            ) is Ok by {
                assert(before[i] == values[i]);
            }
        } else {
            let i = choose|i: int|
                0 <= i < before.len() && endpoint_of(limits, peer, #[trigger] before[i]) is Err;
            assert(values[i] == before[i]);
        }
        if 0 <= at < values.len() && endpoint_of(limits, peer, values[at]) is Err && (forall|i: int|
            0 <= i < at ==> endpoint_of(limits, peer, #[trigger] values[i]) is Ok) {
            assert forall|i: int| 0 <= i < at && i < before.len() implies endpoint_of(
                limits,
                peer,
                #[trigger] before[i],
            ) is Ok by {
                assert(before[i] == values[i]);
            }
        }
    }
}

/// A kept record stands under the hash of the provider that published it; one that
/// cannot be decoded, is of nobody's, or stands under another hash, is told.
pub proof fn a_kept_record_stands_under_its_publisher(
    record: RetainedRecord,
    bundle: SignedBundle,
    peer: PeerId,
)
    ensures
        record.bundle is None ==> retained_problem(record) == Some(RetainedError::Undecodable),
        record.bundle == Some(bundle) && peer_of_key(bundle.publisher@) is None
            ==> retained_problem(record) == Some(RetainedError::Identity),
        record.bundle == Some(bundle) && peer_of_key(bundle.publisher@) == Some(peer) ==> {
            let under = record.provider_hash@ == hash_of(text_bytes(peer_text(peer)));
            &&& under ==> retained_problem(record) is None
            &&& !under ==> retained_problem(record) == Some(RetainedError::OtherProvider)
            &&& retained_provider(record) == peer_text(peer)
        },
{
}

/// A kept record is looked at if and only if it counts, for its provider, for the node
/// that it is about, and still.
pub proof fn just_the_kept_records_that_count_are_looked_at(
    records: Seq<RetainedRecord>,
    subject: Id32,
    now: u64,
    place: usize,
)
    requires
        records.len() <= usize::MAX,
    ensures
        retained_places(records, subject, now).contains(place) <==> place < records.len()
            && bundle_counts(
            retained_provider(records[place as int]),
            subject,
            records[place as int].bundle->0@,
            now,
        ),
    decreases records.len(),
{
    if records.len() > 0 {
        let before = records.drop_last();
        just_the_kept_records_that_count_are_looked_at(before, subject, now, place);
        let some = retained_places(before, subject, now);
        let all = retained_places(records, subject, now);
        let last = (records.len() - 1) as usize;
        assert(records.last() == records[records.len() - 1]);
        if some.contains(place) {
            let k = choose|k: int| 0 <= k < some.len() && some[k] == place;
            assert(all[k] == place);
        }
        if all.contains(place) && !some.contains(place) {
            let k = choose|k: int| 0 <= k < all.len() && all[k] == place;
            if k < some.len() {
                assert(some[k] == place);
            }
        }
        if all.len() > some.len() {
            assert(all[some.len() as int] == last);
        }
    }
}

/// A provider's answer is fit if its record counts, could be opened, agrees with what
/// was sealed in it, and has the right that it claims; then it stands for its
/// publisher until it expires.
pub proof fn only_a_record_that_helps_is_fit(
    limits: EndpointLimits,
    local: Id32,
    provider: Seq<char>,
    checkpoint_hash: Id32,
    bundle: SignedBundle,
    locator: RecoveryLocator,
    authority: bool,
    now: u64,
)
    ensures
        ({
            let selected = SelectedBundle::Bundle(bundle);
            let unfit = ProviderAnswer::Unfit { publisher: bundle.publisher };
            let answer = ready_answer(
                limits,
                local,
                provider,
                checkpoint_hash,
                selected,
                Some(locator),
                authority,
                now,
            );
            let helps = bundle_counts(provider, local, bundle@, now) && locator_ready(
                limits,
                bundle,
                locator,
                checkpoint_hash,
            ) && authority;
            &&& helps ==> answer == (ProviderAnswer::Fit {
                publisher: bundle.publisher,
                expires_at_unix_seconds: bundle.expires_at_unix_seconds,
            })
            &&& !helps ==> answer == unfit
            &&& ready_answer(
                limits,
                local,
                provider,
                checkpoint_hash,
                selected,
                None,
                authority,
                now,
            ) == unfit
            &&& ready_answer(
                limits,
                local,
                provider,
                checkpoint_hash,
                SelectedBundle::Nothing,
                Some(locator),
                authority,
                now,
            ) == ProviderAnswer::Nothing
            &&& ready_answer(
                limits,
                local,
                provider,
                checkpoint_hash,
                SelectedBundle::Conflicting,
                Some(locator),
                authority,
                now,
            ) == ProviderAnswer::Conflicting
        }),
{
}

/// A fit answer counts for its publisher until it expires, behind those that counted
/// before; a provider that contradicts itself is passed over from then on; any other
/// answer changes nothing.
pub proof fn a_fit_answer_counts_for_its_publisher(
    round: RoundModel,
    provider: Seq<char>,
    publisher: Id32,
    expires: u64,
)
    ensures
        ({
            let after = round.answered(
                provider,
                ProviderAnswer::Fit { publisher, expires_at_unix_seconds: expires },
            );
            &&& after.counted == round.counted.insert(publisher)
            &&& after.confirmations == round.confirmations.push((publisher, expires))
            &&& after.rejected == round.rejected
        }),
        ({
            let after = round.answered(provider, ProviderAnswer::Conflicting);
            &&& after.rejected == round.rejected.insert(provider)
            &&& after.counted == round.counted && after.confirmations == round.confirmations
        }),
        round.answered(provider, ProviderAnswer::Nothing) == round,
        round.answered(provider, ProviderAnswer::Unfit { publisher }) == round,
        round.looks_at_kept(provider, publisher) <==> !round.rejected.contains(provider)
            && !round.counted.contains(publisher),
{
}

/// The endpoints of every member but the node itself are looked up.
pub proof fn every_other_member_is_looked_up(members: Seq<Id32>, local: Id32)
    ensures
        other_members(members, local) == members.filter(|member: Id32| member != local),
    decreases members.len(),
{
    reveal(Seq::filter);
    if members.len() > 0 {
        every_other_member_is_looked_up(members.drop_last(), local);
    }
}

} // verus!
