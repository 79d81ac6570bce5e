//! What is found in the DHT: which records count, and which of them is
//! current.

use crate::address::{
    address_of_text, last_peer, peer_of_key, peer_of_text, peer_text, Component, Multiaddr, PeerId,
    Protocol, PeerSet,
};
use crate::endpoints::{
    published_problem, texts, validate_published_endpoint_for_peer, EndpointLimits,
};
use crate::hashing::{content_hash, hash_of};
use crate::ids::Id32;
use crate::ordered::{sorted_texts, TextSet};
use crate::policy::views;
use crate::table::{KeySet, Stored, Table};
use crate::tor::{onion_address_matches_node, onion_matches_node, NodeId};
use vstd::prelude::*;

verus! {

/// A record as the DHT hands it out.
#[derive(Debug)]
pub struct DhtRecord {
    pub publisher: Option<String>,
    pub value: Vec<u8>,
}

/// A valid record, as far as choosing among records depends on it.
#[derive(Debug)]
pub struct DhtRecordObservation {
    pub sequence: u64,
    pub expires_at_unix_seconds: u64,
    pub bytes: Vec<u8>,
}

/// What an observation is, for contracts.
pub struct ObservationModel {
    pub sequence: u64,
    pub expires_at_unix_seconds: u64,
    pub bytes: Seq<u8>,
}

impl DhtRecordObservation {
    pub open spec fn view(&self) -> ObservationModel {
        ObservationModel {
            sequence: self.sequence,
            expires_at_unix_seconds: self.expires_at_unix_seconds,
            bytes: self.bytes@,
        }
    }
}

pub open spec fn observation_models(list: Seq<DhtRecordObservation>) -> Seq<ObservationModel> {
    list.map_values(|observation: DhtRecordObservation| observation@)
}

/// A record of a peer's endpoints, as it was decoded.
#[derive(Debug)]
pub struct SignedEndpoints {
    /// The signature over the record is that of its signer.
    pub signature_valid: bool,
    pub signer: Id32,
    pub format_version: u16,
    pub publisher: Id32,
    pub sequence: u64,
    pub expires_at_unix_seconds: u64,
    pub endpoints: Vec<String>,
    /// The record in canonical form.
    pub bytes: Vec<u8>,
}

/// What a record of endpoints is, for contracts.
pub struct EndpointsModel {
    pub signature_valid: bool,
    pub signer: Id32,
    pub format_version: u16,
    pub publisher: Id32,
    pub sequence: u64,
    pub expires_at_unix_seconds: u64,
    pub endpoints: Seq<Seq<char>>,
    pub bytes: Seq<u8>,
}

impl SignedEndpoints {
    pub open spec fn view(&self) -> EndpointsModel {
        EndpointsModel {
            signature_valid: self.signature_valid,
            signer: self.signer,
            format_version: self.format_version,
            publisher: self.publisher,
            sequence: self.sequence,
            expires_at_unix_seconds: self.expires_at_unix_seconds,
            endpoints: texts(self.endpoints@),
            bytes: self.bytes@,
        }
    }
}

/// A sealed recovery record, as it was decoded.
#[derive(Debug)]
pub struct SignedBundle {
    /// The signature over the record is that of its signer.
    pub signature_valid: bool,
    pub signer: Id32,
    pub format_version: u16,
    pub subject: Id32,
    pub publisher: Id32,
    pub sequence: u64,
    pub expires_at_unix_seconds: u64,
    /// The record in canonical form.
    pub bytes: Vec<u8>,
}

/// What a sealed recovery record is, for contracts.
pub struct BundleModel {
    pub signature_valid: bool,
    pub signer: Id32,
    pub format_version: u16,
    pub subject: Id32,
    pub publisher: Id32,
    pub sequence: u64,
    pub expires_at_unix_seconds: u64,
    pub bytes: Seq<u8>,
}

impl SignedBundle {
    pub open spec fn view(&self) -> BundleModel {
        BundleModel {
            signature_valid: self.signature_valid,
            signer: self.signer,
            format_version: self.format_version,
            subject: self.subject,
            publisher: self.publisher,
            sequence: self.sequence,
            expires_at_unix_seconds: self.expires_at_unix_seconds,
            bytes: self.bytes@,
        }
    }
}

/// A text is that of the peer with a key.
pub open spec fn is_peer_text(key: Id32, text: Seq<char>) -> bool {
    peer_of_key(key@) matches Some(peer) && peer_text(peer) == text
}

fn peer_text_is(key: &Id32, text: &str) -> (result: bool)
    ensures
        result == is_peer_text(*key, text@),
{
    match PeerId::from_key(&key.0) {
        Some(peer) => peer.text() == text.to_owned(),
        None => false,
    }
}

/// Published endpoints are some, not too many, none twice, and each one is
/// valid for its publisher.
pub open spec fn endpoint_values_valid(
    limits: EndpointLimits,
    publisher: Id32,
    endpoints: Seq<Seq<char>>,
) -> bool {
    &&& 0 < endpoints.len() <= limits.per_peer
    &&& endpoints.no_duplicates()
    &&& peer_of_key(publisher@) matches Some(peer) && forall|i: int|
        0 <= i < endpoints.len() ==> published_problem(limits, peer, #[trigger] endpoints[i]) is None
}

/// Whether published endpoints are valid for their publisher.
pub fn valid_endpoint_values(
    limits: &EndpointLimits,
    publisher: &Id32,
    endpoints: &Vec<String>,
) -> (valid: bool)
    ensures
        valid == endpoint_values_valid(*limits, *publisher, texts(endpoints@)),
{
    if endpoints.len() == 0 || endpoints.len() > limits.per_peer {
        return false;
    }
    let peer = match PeerId::from_key(&publisher.0) {
        Some(peer) => peer,
        None => {
            return false;
        },
    };
    let ghost all = texts(endpoints@);
    let mut i: usize = 0;
    while i < endpoints.len()
        invariant
            i <= endpoints@.len(),
            all == texts(endpoints@),
            0 < all.len() <= limits.per_peer,
            peer_of_key(publisher@) == Some(peer),
            forall|a: int, b: int| 0 <= a < b < i ==> all[a] != all[b],
            forall|k: int|
                0 <= k < i ==> published_problem(*limits, peer, #[trigger] all[k]) is None,
        decreases endpoints@.len() - i,
    {
        let mut j: usize = 0;
        while j < i
            invariant
                j <= i < endpoints@.len(),
                all == texts(endpoints@),
                forall|k: int| 0 <= k < j ==> all[k] != all[i as int],
            decreases i - j,
        {
            assert(all[j as int] == endpoints@[j as int]@);
            assert(all[i as int] == endpoints@[i as int]@);
            if endpoints[j] == endpoints[i] {
                assert(!all.no_duplicates());
                return false;
            }
            j += 1;
        }
        assert(all[i as int] == endpoints@[i as int]@);
        if validate_published_endpoint_for_peer(limits, peer, endpoints[i].as_str()).is_err() {
            return false;
        }
        i += 1;
    }
    proof {
        assert forall|a: int, b: int| 0 <= a < all.len() && 0 <= b < all.len() && a != b implies all[a]
            != all[b] by {
            if a < b {
                assert(all[a] != all[b]);
            } else {
                assert(all[b] != all[a]);
            }
        }
    }
    true
}

/// A record of endpoints is signed, of a publisher, numbered, still good, and
/// its endpoints are valid.
pub open spec fn endpoints_count(
    limits: EndpointLimits,
    publisher: Id32,
    record: EndpointsModel,
    now: u64,
) -> bool {
    &&& record.signature_valid
    &&& record.format_version == 1
    &&& record.signer == publisher
    &&& record.publisher == publisher
    &&& record.sequence != 0
    &&& record.expires_at_unix_seconds > now
    &&& endpoint_values_valid(limits, publisher, record.endpoints)
}

/// The record of endpoints counts.
pub fn endpoint_record_counts(
    limits: &EndpointLimits,
    publisher: &Id32,
    record: &SignedEndpoints,
    now: u64,
) -> (counts: bool)
    ensures
        counts == endpoints_count(*limits, *publisher, record@, now),
{
    record.signature_valid && record.format_version == 1 && record.signer.equals(publisher)
        && record.publisher.equals(publisher) && record.sequence != 0
        && record.expires_at_unix_seconds > now && valid_endpoint_values(
        limits,
        publisher,
        &record.endpoints,
    )
}

/// A sealed recovery record is signed by its publisher, about a node, numbered,
/// still good, and handed out by its publisher.
pub open spec fn bundle_counts(
    provider: Seq<char>,
    subject: Id32,
    record: BundleModel,
    now: u64,
) -> bool {
    &&& record.signature_valid
    &&& record.format_version == 1
    &&& record.subject == subject
    &&& record.publisher == record.signer
    &&& record.sequence != 0
    &&& record.expires_at_unix_seconds > now
    &&& is_peer_text(record.publisher, provider)
}

/// The sealed recovery record counts.
pub fn recovery_bundle_counts(
    provider_peer_id: &str,
    subject: &Id32,
    record: &SignedBundle,
    now: u64,
) -> (counts: bool)
    ensures
        counts == bundle_counts(provider_peer_id@, *subject, record@, now),
{
    record.signature_valid && record.format_version == 1 && record.subject.equals(subject)
        && record.publisher.equals(&record.signer) && record.sequence != 0
        && record.expires_at_unix_seconds > now && peer_text_is(&record.publisher, provider_peer_id)
}

/// A record of endpoints as it is observed.
pub open spec fn observed_endpoints(record: EndpointsModel) -> ObservationModel {
    ObservationModel {
        sequence: record.sequence,
        expires_at_unix_seconds: record.expires_at_unix_seconds,
        bytes: record.bytes,
    }
}

/// A sealed recovery record as it is observed.
pub open spec fn observed_bundle(record: BundleModel) -> ObservationModel {
    ObservationModel {
        sequence: record.sequence,
        expires_at_unix_seconds: record.expires_at_unix_seconds,
        bytes: record.bytes,
    }
}

/// The observations among what was found; `None` is what could not be decoded.
pub open spec fn endpoint_observations(
    limits: EndpointLimits,
    publisher: Id32,
    records: Seq<Option<SignedEndpoints>>,
    now: u64,
) -> Seq<ObservationModel>
    decreases records.len(),
{
    if records.len() == 0 {
        Seq::empty()
    } else {
        let before = endpoint_observations(limits, publisher, records.drop_last(), now);
        match records.last() {
            Some(record) => if endpoints_count(limits, publisher, record@, now) {
                before.push(observed_endpoints(record@))
            } else {
                before
            },
            None => before,
        }
    }
}

/// The observations among what was found; `None` is what could not be decoded.
pub open spec fn bundle_observations(
    provider: Seq<char>,
    subject: Id32,
    records: Seq<Option<SignedBundle>>,
    now: u64,
) -> Seq<ObservationModel>
    decreases records.len(),
{
    if records.len() == 0 {
        Seq::empty()
    } else {
        let before = bundle_observations(provider, subject, records.drop_last(), now);
        match records.last() {
            Some(record) => if bundle_counts(provider, subject, record@, now) {
                before.push(observed_bundle(record@))
            } else {
                before
            },
            None => before,
        }
    }
}

/// A copy of bytes.
pub fn copy_of(bytes: &Vec<u8>) -> (copy: Vec<u8>)
    ensures
        copy@ == bytes@,
{
    let mut copy: Vec<u8> = Vec::new();
    let mut i: usize = 0;
    while i < bytes.len()
        invariant
            i <= bytes@.len(),
            copy@ == bytes@.take(i as int),
        decreases bytes@.len() - i,
    {
        copy.push(bytes[i]);
        assert(bytes@.take(i + 1) =~= bytes@.take(i as int).push(bytes@[i as int]));
        i += 1;
    }
    assert(bytes@.take(i as int) =~= bytes@);
    copy
}

/// The observations among the records of endpoints that were found.
pub fn endpoint_record_observations(
    limits: &EndpointLimits,
    publisher: &Id32,
    records: &Vec<Option<SignedEndpoints>>,
    now: u64,
) -> (observations: Vec<DhtRecordObservation>)
    ensures
        observation_models(observations@) == endpoint_observations(
            *limits,
            *publisher,
            records@,
            now,
        ),
{
    let mut observations: Vec<DhtRecordObservation> = Vec::new();
    let mut i: usize = 0;
    assert(records@.take(0) =~= Seq::empty());
    assert(observation_models(observations@) =~= Seq::empty());
    while i < records.len()
        invariant
            i <= records@.len(),
            observation_models(observations@) == endpoint_observations(
                *limits,
                *publisher,
                records@.take(i as int),
                now,
            ),
        decreases records@.len() - i,
    {
        let ghost before = observations@;
        proof {
            assert(records@.take(i + 1).drop_last() =~= records@.take(i as int));
        }
        if let Some(record) = &records[i] {
            if endpoint_record_counts(limits, publisher, record, now) {
                let observation = DhtRecordObservation {
                    sequence: record.sequence,
                    expires_at_unix_seconds: record.expires_at_unix_seconds,
                    bytes: copy_of(&record.bytes),
                };
                let ghost model = observation@;
                observations.push(observation);
                assert(observation_models(observations@) =~= observation_models(before).push(
                    model,
                ));
            }
        }
        i += 1;
    }
    assert(records@.take(i as int) =~= records@);
    observations
}

/// The observations among the sealed recovery records that were found.
pub fn recovery_bundle_observations(
    provider_peer_id: &str,
    subject: &Id32,
    records: &Vec<Option<SignedBundle>>,
    now: u64,
) -> (observations: Vec<DhtRecordObservation>)
    ensures
        observation_models(observations@) == bundle_observations(
            provider_peer_id@,
            *subject,
            records@,
            now,
        ),
{
    let mut observations: Vec<DhtRecordObservation> = Vec::new();
    let mut i: usize = 0;
    assert(records@.take(0) =~= Seq::empty());
    assert(observation_models(observations@) =~= Seq::empty());
    while i < records.len()
        invariant
            i <= records@.len(),
            observation_models(observations@) == bundle_observations(
                provider_peer_id@,
                *subject,
                records@.take(i as int),
                now,
            ),
        decreases records@.len() - i,
    {
        let ghost before = observations@;
        proof {
            assert(records@.take(i + 1).drop_last() =~= records@.take(i as int));
        }
        if let Some(record) = &records[i] {
            if recovery_bundle_counts(provider_peer_id, subject, record, now) {
                let observation = DhtRecordObservation {
                    sequence: record.sequence,
                    expires_at_unix_seconds: record.expires_at_unix_seconds,
                    bytes: copy_of(&record.bytes),
                };
                let ghost model = observation@;
                observations.push(observation);
                assert(observation_models(observations@) =~= observation_models(before).push(
                    model,
                ));
            }
        }
        i += 1;
    }
    assert(records@.take(i as int) =~= records@);
    observations
}

/// Why no record is chosen.
#[derive(Clone, Copy, Debug, PartialEq, Eq, Structural)]
pub enum SequenceError {
    /// A publisher signed two different records with the same number.
    Forked,
    /// There is no number after the last.
    Exhausted,
}

/// Two records have the same number but not the same hash.
pub open spec fn forked(observations: Seq<ObservationModel>) -> bool {
    exists|i: int, j: int|
        0 <= i < observations.len() && 0 <= j < observations.len() && (
        #[trigger] observations[i]).sequence == (#[trigger] observations[j]).sequence && hash_of(
            observations[i].bytes,
        ) != hash_of(observations[j].bytes)
}

/// The first record with the highest number.
pub open spec fn is_current(observations: Seq<ObservationModel>, i: int) -> bool {
    &&& 0 <= i < observations.len()
    &&& forall|k: int|
        0 <= k < observations.len() ==> (#[trigger] observations[k]).sequence
            <= observations[i].sequence
    &&& forall|k: int|
        0 <= k < i ==> (#[trigger] observations[k]).sequence < observations[i].sequence
}

/// Whether observations hold a fork.
fn has_fork(observations: &Vec<DhtRecordObservation>) -> (result: bool)
    ensures
        result == forked(observation_models(observations@)),
{
    let ghost all = observation_models(observations@);
    let mut hashes: Vec<Id32> = Vec::new();
    let mut k: usize = 0;
    while k < observations.len()
        invariant
            k <= observations@.len() == all.len(),
            all == observation_models(observations@),
            k == hashes@.len(),
            forall|i: int| 0 <= i < k ==> (#[trigger] hashes@[i])@ == hash_of(all[i].bytes),
        decreases observations@.len() - k,
    {
        assert(all[k as int] == observations@[k as int]@);
        let hash = content_hash(observations[k].bytes.as_slice());
        hashes.push(hash);
        k += 1;
    }
    let mut i: usize = 0;
    while i < observations.len()
        invariant
            i <= observations@.len() == all.len(),
            all == observation_models(observations@),
            hashes@.len() == all.len(),
            forall|k: int| 0 <= k < all.len() ==> (#[trigger] hashes@[k])@ == hash_of(all[k].bytes),
            forall|a: int, b: int|
                0 <= a < i && 0 <= b < all.len() && (#[trigger] all[a]).sequence == (
                #[trigger] all[b]).sequence ==> hash_of(all[a].bytes) == hash_of(all[b].bytes),
        decreases observations@.len() - i,
    {
        let mut j: usize = 0;
        while j < observations.len()
            invariant
                i < observations@.len(),
                j <= observations@.len() == all.len(),
                all == observation_models(observations@),
                hashes@.len() == all.len(),
                forall|k: int|
                    0 <= k < all.len() ==> (#[trigger] hashes@[k])@ == hash_of(all[k].bytes),
                forall|b: int|
                    0 <= b < j && all[i as int].sequence == (#[trigger] all[b]).sequence
                        ==> hash_of(all[i as int].bytes) == hash_of(all[b].bytes),
            decreases observations@.len() - j,
        {
            assert(all[i as int] == observations@[i as int]@);
            assert(all[j as int] == observations@[j as int]@);
            if observations[i].sequence == observations[j].sequence && !hashes[i].equals(
                &hashes[j],
            ) {
                assert(hashes@[i as int]@ == hash_of(all[i as int].bytes));
                assert(hashes@[j as int]@ == hash_of(all[j as int].bytes));
                return true;
            }
            j += 1;
        }
        i += 1;
    }
    false
}

/// The place of the first record with the highest number.
fn current_place(observations: &Vec<DhtRecordObservation>) -> (place: usize)
    requires
        observations@.len() > 0,
    ensures
        is_current(observation_models(observations@), place as int),
{
    let ghost all = observation_models(observations@);
    let mut best: usize = 0;
    let mut i: usize = 1;
    while i < observations.len()
        invariant
            1 <= i <= observations@.len() == all.len(),
            all == observation_models(observations@),
            best < i,
            forall|k: int| 0 <= k < i ==> (#[trigger] all[k]).sequence <= all[best as int].sequence,
            forall|k: int|
                0 <= k < best ==> (#[trigger] all[k]).sequence < all[best as int].sequence,
        decreases observations@.len() - i,
    {
        assert(all[i as int] == observations@[i as int]@);
        assert(all[best as int] == observations@[best as int]@);
        if observations[i].sequence > observations[best].sequence {
            best = i;
        }
        i += 1;
    }
    best
}

/// The current one among observations: none where a publisher forked a number.
pub fn select_current_observation(observations: &Vec<DhtRecordObservation>) -> (selected: Result<
    Option<Vec<u8>>,
    SequenceError,
>)
    ensures
        ({
            let all = observation_models(observations@);
            match selected {
                Err(error) => error == SequenceError::Forked && forked(all),
                Ok(None) => all.len() == 0,
                Ok(Some(bytes)) => !forked(all) && exists|i: int| #[trigger]
                    is_current(all, i) && bytes@ == all[i].bytes,
            }
        }),
        forked(observation_models(observations@)) ==> selected is Err,
{
    let ghost all = observation_models(observations@);
    if has_fork(observations) {
        return Err(SequenceError::Forked);
    }
    if observations.len() == 0 {
        return Ok(None);
    }
    let place = current_place(observations);
    let bytes = copy_of(&observations[place].bytes);
    assert(is_current(all, place as int) && bytes@ == all[place as int].bytes);
    Ok(Some(bytes))
}

/// The order in which records are found does not matter: without a fork, two
/// lists of the same observations have current records with the same number
/// and the same hash; and they hold a fork both or neither.
pub proof fn selection_ignores_order(
    a: Seq<ObservationModel>,
    b: Seq<ObservationModel>,
    i: int,
    j: int,
)
    requires
        a.to_set() == b.to_set(),
        is_current(a, i),
        is_current(b, j),
    ensures
        a[i].sequence == b[j].sequence,
        forked(a) == forked(b),
        !forked(a) ==> hash_of(a[i].bytes) == hash_of(b[j].bytes),
{
    assert(a.to_set().contains(a[i]));
    assert(b.to_set().contains(b[j]));
    assert(b.contains(a[i]));
    assert(a.contains(b[j]));
    let x = choose|x: int| 0 <= x < b.len() && b[x] == a[i];
    let y = choose|y: int| 0 <= y < a.len() && a[y] == b[j];
    assert(b[x].sequence <= b[j].sequence);
    assert(a[y].sequence <= a[i].sequence);
    if forked(a) {
        lemma_fork_moves(a, b);
    }
    if forked(b) {
        lemma_fork_moves(b, a);
    }
}

proof fn lemma_fork_moves(a: Seq<ObservationModel>, b: Seq<ObservationModel>)
    requires
        a.to_set() == b.to_set(),
        forked(a),
    ensures
        forked(b),
{
    let (i, j) = choose|i: int, j: int|
        0 <= i < a.len() && 0 <= j < a.len() && (#[trigger] a[i]).sequence == (
        #[trigger] a[j]).sequence && hash_of(a[i].bytes) != hash_of(a[j].bytes);
    assert(a.to_set().contains(a[i]));
    assert(a.to_set().contains(a[j]));
    assert(b.contains(a[i]));
    assert(b.contains(a[j]));
    let x = choose|x: int| 0 <= x < b.len() && b[x] == a[i];
    let y = choose|y: int| 0 <= y < b.len() && b[y] == a[j];
    assert(b[x].sequence == b[y].sequence);
}

impl Stored for Id32 {
    type Model = Id32;

    open spec fn stored(&self) -> Id32 {
        *self
    }

    open spec fn sound(&self) -> bool {
        true
    }
}

/// Notes the hash of a record under its number. Another hash under the same
/// number is a fork, though it is noted.
pub fn insert_sequence_hash(observed: &mut Table<u64, Id32>, sequence: u64, hash: Id32) -> (result:
    Result<(), SequenceError>)
    requires
        old(observed).wf(),
    ensures
        final(observed).wf(),
        final(observed)@ == old(observed)@.insert(sequence, hash),
        match result {
            Ok(()) => old(observed)@.contains_key(sequence) ==> old(observed)@[sequence] == hash,
            Err(error) => error == SequenceError::Forked && old(observed)@.contains_key(sequence)
                && old(observed)@[sequence] != hash,
        },
{
    let before: Option<Id32> = match observed.get(sequence) {
        Some(existing) => Some(*existing),
        None => None,
    };
    observed.insert(sequence, hash);
    match before {
        Some(existing) => {
            if existing.equals(&hash) {
                Ok(())
            } else {
                Err(SequenceError::Forked)
            }
        },
        None => Ok(()),
    }
}

/// The number that a publisher uses next, above all that were seen.
pub fn next_sequence_floor(highest: Option<u64>) -> (floor: Result<u64, SequenceError>)
    ensures
        match floor {
            Ok(floor) => floor == (match highest {
                Some(highest) => highest + 1,
                None => 1,
            }),
            Err(error) => error == SequenceError::Exhausted && highest == Some(u64::MAX),
        },
{
    let highest: u64 = match highest {
        Some(highest) => highest,
        None => 0,
    };
    match highest.checked_add(1) {
        Some(floor) => Ok(floor),
        None => Err(SequenceError::Exhausted),
    }
}

/// A record of endpoints tells which numbers its publisher has used, expired
/// or not.
pub open spec fn numbers_endpoints(publisher: Id32, record: EndpointsModel) -> bool {
    &&& record.signature_valid
    &&& record.signer == publisher
    &&& record.publisher == publisher
    &&& record.sequence > 0
}

/// A sealed recovery record tells which numbers its publisher has used, expired
/// or not.
pub open spec fn numbers_bundle(provider: Seq<char>, subject: Id32, record: BundleModel) -> bool {
    &&& record.signature_valid
    &&& record.format_version == 1
    &&& record.subject == subject
    &&& record.publisher == record.signer
    &&& record.sequence > 0
    &&& is_peer_text(record.publisher, provider)
}

/// The numbers that records of endpoints tell of.
pub open spec fn endpoint_numbers(publisher: Id32, records: Seq<Option<SignedEndpoints>>) -> Seq<
    ObservationModel,
>
    decreases records.len(),
{
    if records.len() == 0 {
        Seq::empty()
    } else {
        let before = endpoint_numbers(publisher, records.drop_last());
        match records.last() {
            Some(record) => if numbers_endpoints(publisher, record@) {
                before.push(observed_endpoints(record@))
            } else {
                before
            },
            None => before,
        }
    }
}

/// The numbers that sealed recovery records tell of.
pub open spec fn bundle_numbers(
    provider: Seq<char>,
    subject: Id32,
    records: Seq<Option<SignedBundle>>,
) -> Seq<ObservationModel>
    decreases records.len(),
{
    if records.len() == 0 {
        Seq::empty()
    } else {
        let before = bundle_numbers(provider, subject, records.drop_last());
        match records.last() {
            Some(record) => if numbers_bundle(provider, subject, record@) {
                before.push(observed_bundle(record@))
            } else {
                before
            },
            None => before,
        }
    }
}

/// The highest of the numbers that records tell of.
pub open spec fn highest_number(observations: Seq<ObservationModel>, highest: Option<u64>) -> bool {
    match highest {
        None => observations.len() == 0,
        Some(highest) => exists|i: int| #[trigger]
            is_current(observations, i) && observations[i].sequence == highest,
    }
}

/// The highest number among observations, unless a number is forked.
fn highest_of(observations: &Vec<DhtRecordObservation>) -> (highest: Result<
    Option<u64>,
    SequenceError,
>)
    ensures
        match highest {
            Err(error) => error == SequenceError::Forked && forked(
                observation_models(observations@),
            ),
            Ok(highest) => !forked(observation_models(observations@)) && highest_number(
                observation_models(observations@),
                highest,
            ),
        },
{
    let ghost all = observation_models(observations@);
    let mut observed: Table<u64, Id32> = Table::new();
    let mut i: usize = 0;
    while i < observations.len()
        invariant
            i <= observations@.len() == all.len(),
            all == observation_models(observations@),
            observed.wf(),
            forall|k: int|
                0 <= k < i ==> observed@.contains_key((#[trigger] all[k]).sequence)
                    && observed@[all[k].sequence]@ == hash_of(all[k].bytes),
            forall|s: u64| #[trigger]
                observed@.contains_key(s) ==> exists|k: int|
                    0 <= k < i && (#[trigger] all[k]).sequence == s,
        decreases observations@.len() - i,
    {
        assert(all[i as int] == observations@[i as int]@);
        let hash = content_hash(observations[i].bytes.as_slice());
        let sequence: u64 = observations[i].sequence;
        let ghost before = observed@;
        match insert_sequence_hash(&mut observed, sequence, hash) {
            Err(error) => {
                proof {
                    assert(before.contains_key(sequence));
                    let k = choose|k: int| 0 <= k < i && (#[trigger] all[k]).sequence == sequence;
                    assert(before[all[k].sequence]@ == hash_of(all[k].bytes));
                    if before[sequence]@ == hash@ {
                        assert(before[sequence].0 =~= hash.0);
                    }
                    assert(all[k].sequence == all[i as int].sequence);
                }
                return Err(error);
            },
            Ok(()) => {
                proof {
                    assert forall|k: int| 0 <= k < i + 1 implies observed@.contains_key(
                        (#[trigger] all[k]).sequence,
                    ) && observed@[all[k].sequence]@ == hash_of(all[k].bytes) by {
                        if k < i && all[k].sequence == sequence {
                            assert(before.contains_key(sequence));
                        }
                    }
                    assert forall|s: u64| #[trigger] observed@.contains_key(s) implies exists|k: int|
                        0 <= k < i + 1 && (#[trigger] all[k]).sequence == s by {
                        if s == sequence {
                            assert(all[i as int].sequence == s);
                        } else {
                            assert(before.contains_key(s));
                            let k = choose|k: int| 0 <= k < i && (#[trigger] all[k]).sequence == s;
                            assert(all[k].sequence == s);
                        }
                    }
                }
            },
        }
        i += 1;
    }
    proof {
        assert(!forked(all)) by {
            if forked(all) {
                let (x, y) = choose|x: int, y: int|
                    0 <= x < all.len() && 0 <= y < all.len() && (#[trigger] all[x]).sequence == (
                    #[trigger] all[y]).sequence && hash_of(all[x].bytes) != hash_of(
                        all[y].bytes,
                    );
                assert(observed@[all[x].sequence]@ == hash_of(all[x].bytes));
                assert(observed@[all[y].sequence]@ == hash_of(all[y].bytes));
            }
        }
    }
    if observations.len() == 0 {
        return Ok(None);
    }
    let place = current_place(observations);
    assert(is_current(all, place as int));
    Ok(Some(observations[place].sequence))
}

/// The highest number that a publisher has used for its endpoints, as far as
/// records tell.
pub fn highest_endpoint_sequence(publisher: &Id32, records: &Vec<Option<SignedEndpoints>>) -> (
    highest: Result<Option<u64>, SequenceError>)
    ensures
        match highest {
            Err(error) => error == SequenceError::Forked && forked(
                endpoint_numbers(*publisher, records@),
            ),
            Ok(highest) => !forked(endpoint_numbers(*publisher, records@)) && highest_number(
                endpoint_numbers(*publisher, records@),
                highest,
            ),
        },
{
    let mut observations: Vec<DhtRecordObservation> = Vec::new();
    let mut i: usize = 0;
    assert(records@.take(0) =~= Seq::empty());
    assert(observation_models(observations@) =~= Seq::empty());
    while i < records.len()
        invariant
            i <= records@.len(),
            observation_models(observations@) == endpoint_numbers(
                *publisher,
                records@.take(i as int),
            ),
        decreases records@.len() - i,
    {
        let ghost before = observations@;
        proof {
            assert(records@.take(i + 1).drop_last() =~= records@.take(i as int));
        }
        if let Some(record) = &records[i] {
            if record.signature_valid && record.signer.equals(publisher)
                && record.publisher.equals(publisher) && record.sequence > 0 {
                let observation = DhtRecordObservation {
                    sequence: record.sequence,
                    expires_at_unix_seconds: record.expires_at_unix_seconds,
                    bytes: copy_of(&record.bytes),
                };
                let ghost model = observation@;
                observations.push(observation);
                assert(observation_models(observations@) =~= observation_models(before).push(
                    model,
                ));
            }
        }
        i += 1;
    }
    assert(records@.take(i as int) =~= records@);
    highest_of(&observations)
}

/// The highest number that a publisher has used for its sealed recovery record
/// of a node, as far as records tell.
pub fn highest_recovery_sequence(
    provider_peer_id: &str,
    subject: &Id32,
    records: &Vec<Option<SignedBundle>>,
) -> (highest: Result<Option<u64>, SequenceError>)
    ensures
        match highest {
            Err(error) => error == SequenceError::Forked && forked(
                bundle_numbers(provider_peer_id@, *subject, records@),
            ),
            Ok(highest) => !forked(bundle_numbers(provider_peer_id@, *subject, records@))
                && highest_number(
                bundle_numbers(provider_peer_id@, *subject, records@),
                highest,
            ),
        },
{
    let mut observations: Vec<DhtRecordObservation> = Vec::new();
    let mut i: usize = 0;
    assert(records@.take(0) =~= Seq::empty());
    assert(observation_models(observations@) =~= Seq::empty());
    while i < records.len()
        invariant
            i <= records@.len(),
            observation_models(observations@) == bundle_numbers(
                provider_peer_id@,
                *subject,
                records@.take(i as int),
            ),
        decreases records@.len() - i,
    {
        let ghost before = observations@;
        proof {
            assert(records@.take(i + 1).drop_last() =~= records@.take(i as int));
        }
        if let Some(record) = &records[i] {
            if record.signature_valid && record.format_version == 1 && record.subject.equals(
                subject,
            ) && record.publisher.equals(&record.signer) && record.sequence > 0 && peer_text_is(
                &record.publisher,
                provider_peer_id,
            ) {
                let observation = DhtRecordObservation {
                    sequence: record.sequence,
                    expires_at_unix_seconds: record.expires_at_unix_seconds,
                    bytes: copy_of(&record.bytes),
                };
                let ghost model = observation@;
                observations.push(observation);
                assert(observation_models(observations@) =~= observation_models(before).push(
                    model,
                ));
            }
        }
        i += 1;
    }
    assert(records@.take(i as int) =~= records@);
    highest_of(&observations)
}

/// The next number is above every number that records tell of.
pub proof fn next_number_is_new(observations: Seq<ObservationModel>, highest: Option<u64>, floor: u64)
    requires
        highest_number(observations, highest),
        floor == (match highest {
            Some(highest) => highest + 1,
            None => 1,
        }),
    ensures
        forall|i: int|
            0 <= i < observations.len() ==> (#[trigger] observations[i]).sequence < floor,
{
}

/// Reads the endpoints that a node published, each of which must name the node
/// and be its own where it is an onion address.
pub fn published_addresses(member: &NodeId, endpoints: &Vec<String>) -> (addresses: Option<
    Vec<Multiaddr>,
>)
    ensures
        match addresses {
            Some(addresses) => {
                &&& addresses@.len() == endpoints@.len()
                &&& forall|i: int|
                    0 <= i < endpoints@.len() ==> address_published(
                        *member,
                        #[trigger] endpoints@[i]@,
                    ) && address_of_text(endpoints@[i]@) == Some(addresses@[i]@)
            },
            None => exists|i: int|
                0 <= i < endpoints@.len() && !address_published(
                    *member,
                    #[trigger] endpoints@[i]@,
                ),
        },
{
    let mut addresses: Vec<Multiaddr> = Vec::new();
    let mut i: usize = 0;
    while i < endpoints.len()
        invariant
            i <= endpoints@.len(),
            i == addresses@.len(),
            forall|k: int|
                0 <= k < i ==> address_published(*member, #[trigger] endpoints@[k]@)
                    && address_of_text(endpoints@[k]@) == Some(addresses@[k]@),
        decreases endpoints@.len() - i,
    {
        match Multiaddr::parse(endpoints[i].as_str()) {
            Some(address) => {
                let bound = match (address.last_peer(), member.peer_id()) {
                    (Some(last), Some(peer)) => last.equals(&peer),
                    _ => false,
                };
                if !bound || !onion_address_matches_node(&address, member) {
                    assert(!address_published(*member, endpoints@[i as int]@));
                    return None;
                }
                addresses.push(address);
            },
            None => {
                assert(!address_published(*member, endpoints@[i as int]@));
                return None;
            },
        }
        i += 1;
    }
    Some(addresses)
}

/// A text spells an address of the node, with the node's peer at its end.
pub open spec fn address_published(member: NodeId, text: Seq<char>) -> bool {
    &&& address_of_text(text) matches Some(address) && peer_of_key(member.key@) is Some
        && last_peer(address) == peer_of_key(member.key@) && onion_matches_node(address, member)
}

/// The peers of the members of an active guild; none where there is no active
/// guild, and no answer where a member's key is none.
pub fn relay_members(active: bool, members: &Vec<Id32>) -> (peers: Option<KeySet<PeerId>>)
    ensures
        match peers {
            Some(peers) => peers.wf() && (if active {
                &&& forall|i: int|
                    0 <= i < members@.len() ==> peer_of_key((#[trigger] members@[i])@) is Some
                &&& forall|peer: PeerId| #[trigger]
                    peers@.contains(peer) <==> exists|i: int|
                        0 <= i < members@.len() && peer_of_key((#[trigger] members@[i])@) == Some(
                            peer,
                        )
            } else {
                peers@ == Set::<PeerId>::empty()
            }),
            None => active && exists|i: int|
                0 <= i < members@.len() && peer_of_key((#[trigger] members@[i])@) is None,
        },
{
    let mut peers: KeySet<PeerId> = KeySet::new();
    if !active {
        return Some(peers);
    }
    let mut i: usize = 0;
    while i < members.len()
        invariant
            i <= members@.len(),
            active,
            peers.wf(),
            forall|k: int| 0 <= k < i ==> peer_of_key((#[trigger] members@[k])@) is Some,
            forall|peer: PeerId| #[trigger]
                peers@.contains(peer) <==> exists|k: int|
                    0 <= k < i && peer_of_key((#[trigger] members@[k])@) == Some(peer),
        decreases members@.len() - i,
    {
        match PeerId::from_key(&members[i].0) {
            Some(peer) => {
                let ghost before = peers@;
                peers.insert(peer);
                proof {
                    assert forall|p: PeerId| #[trigger] peers@.contains(p) <==> (exists|k: int|
                        0 <= k < i + 1 && peer_of_key((#[trigger] members@[k])@) == Some(p)) by {
                        assert(peers@.contains(p) == (before.contains(p) || p == peer));
                        if p == peer {
                            assert(peer_of_key(members@[i as int]@) == Some(p));
                        }
                    }
                }
            },
            None => {
                assert(peer_of_key(members@[i as int]@) is None);
                return None;
            },
        }
        i += 1;
    }
    Some(peers)
}

/// A record of endpoints counts for the one publisher that it names and that
/// signed it, until it expires, if it is in the first format, has a number, and
/// holds some different endpoints, no more than allowed, all of that publisher.
pub proof fn a_record_counts_for_its_publisher(
    limits: EndpointLimits,
    publisher: Id32,
    other: Id32,
    record: EndpointsModel,
    now: u64,
    later: u64,
)
    ensures
        endpoints_count(limits, publisher, record, now) <==> ({
            &&& record == (EndpointsModel {
                signature_valid: true,
                signer: publisher,
                format_version: 1,
                publisher,
                sequence: record.sequence,
                expires_at_unix_seconds: record.expires_at_unix_seconds,
                endpoints: record.endpoints,
                bytes: record.bytes,
            })
            &&& record.sequence >= 1
            &&& now < record.expires_at_unix_seconds
            &&& 1 <= record.endpoints.len() <= limits.per_peer
            &&& forall|i: int, j: int|
                0 <= i < j < record.endpoints.len() ==> record.endpoints[i] != record.endpoints[j]
            &&& peer_of_key(publisher@) is Some
            &&& forall|i: int|
                0 <= i < record.endpoints.len() ==> published_problem(
                    limits,
                    peer_of_key(publisher@)->0,
                    #[trigger] record.endpoints[i],
                ) is None
        }),
        endpoints_count(limits, publisher, record, now) && endpoints_count(
            limits,
            other,
            record,
            now,
        ) ==> publisher == other,
        endpoints_count(limits, publisher, record, later) && now <= later ==> endpoints_count(
            limits,
            publisher,
            record,
            now,
        ),
{
}

/// A sealed recovery record counts for the one subject that it names, if it was
/// signed by the publisher that it names, who is the provider that handed it out,
/// until it expires, in the first format and with a number.
pub proof fn a_bundle_counts_for_its_subject(
    provider: Seq<char>,
    subject: Id32,
    other: Id32,
    record: BundleModel,
    now: u64,
)
    ensures
        bundle_counts(provider, subject, record, now) <==> ({
            &&& record == (BundleModel {
                signature_valid: true,
                signer: record.publisher,
                format_version: 1,
                subject,
                publisher: record.publisher,
                sequence: record.sequence,
                expires_at_unix_seconds: record.expires_at_unix_seconds,
                bytes: record.bytes,
            })
            &&& record.sequence >= 1
            &&& now < record.expires_at_unix_seconds
            &&& peer_of_key(record.publisher@) matches Some(peer) && peer_text(peer) == provider
        }),
        bundle_counts(provider, subject, record, now) && bundle_counts(provider, other, record, now)
            ==> subject == other,
{
}

/// The observations among the records of a publisher are just those records that
/// count, in order, each with its own number, time and bytes.
pub proof fn observations_are_the_records_that_count(
    limits: EndpointLimits,
    publisher: Id32,
    records: Seq<Option<SignedEndpoints>>,
    now: u64,
)
    ensures
        endpoint_observations(limits, publisher, records, now) == records.filter(
            |record: Option<SignedEndpoints>|
                record is Some && endpoints_count(limits, publisher, record->0@, now),
        ).map_values(
            |record: Option<SignedEndpoints>|
                ObservationModel {
                    sequence: record->0.sequence,
                    expires_at_unix_seconds: record->0.expires_at_unix_seconds,
                    bytes: record->0.bytes@,
                },
        ),
    decreases records.len(),
{
    reveal(Seq::filter);
    let test = |record: Option<SignedEndpoints>|
        record is Some && endpoints_count(limits, publisher, record->0@, now);
    let seen = |record: Option<SignedEndpoints>|
        ObservationModel {
            sequence: record->0.sequence,
            expires_at_unix_seconds: record->0.expires_at_unix_seconds,
            bytes: record->0.bytes@,
        };
    if records.len() > 0 {
        observations_are_the_records_that_count(limits, publisher, records.drop_last(), now);
        let before = records.drop_last().filter(test);
        if test(records.last()) {
            assert(before.push(records.last()).map_values(seen) =~= before.map_values(seen).push(
                seen(records.last()),
            ));
        }
    } else {
        assert(records.filter(test).map_values(seen) =~= Seq::empty());
    }
}

/// The same of the sealed recovery records of a provider.
pub proof fn bundle_observations_are_the_records_that_count(
    provider: Seq<char>,
    subject: Id32,
    records: Seq<Option<SignedBundle>>,
    now: u64,
)
    ensures
        bundle_observations(provider, subject, records, now) == records.filter(
            |record: Option<SignedBundle>|
                record is Some && bundle_counts(provider, subject, record->0@, now),
        ).map_values(
            |record: Option<SignedBundle>|
                ObservationModel {
                    sequence: record->0.sequence,
                    expires_at_unix_seconds: record->0.expires_at_unix_seconds,
                    bytes: record->0.bytes@,
                },
        ),
    decreases records.len(),
{
    reveal(Seq::filter);
    let test = |record: Option<SignedBundle>|
        record is Some && bundle_counts(provider, subject, record->0@, now);
    let seen = |record: Option<SignedBundle>|
        ObservationModel {
            sequence: record->0.sequence,
            expires_at_unix_seconds: record->0.expires_at_unix_seconds,
            bytes: record->0.bytes@,
        };
    if records.len() > 0 {
        bundle_observations_are_the_records_that_count(provider, subject, records.drop_last(), now);
        let before = records.drop_last().filter(test);
        if test(records.last()) {
            assert(before.push(records.last()).map_values(seen) =~= before.map_values(seen).push(
                seen(records.last()),
            ));
        }
    } else {
        assert(records.filter(test).map_values(seen) =~= Seq::empty());
    }
}

/// For the numbers that a publisher has used, expired records count too, and so
/// do records of endpoints in another format or with other endpoints: whatever
/// counts now tells of its number, and nothing that the publisher did not sign
/// does.
pub proof fn every_signed_record_tells_its_number(
    limits: EndpointLimits,
    publisher: Id32,
    provider: Seq<char>,
    subject: Id32,
    endpoints: EndpointsModel,
    bundle: BundleModel,
    now: u64,
)
    ensures
        endpoints_count(limits, publisher, endpoints, now) ==> numbers_endpoints(
            publisher,
            endpoints,
        ),
        numbers_endpoints(publisher, endpoints) <==> endpoints.signature_valid && endpoints.signer
            == publisher && endpoints.publisher == publisher && endpoints.sequence >= 1,
        bundle_counts(provider, subject, bundle, now) ==> numbers_bundle(provider, subject, bundle),
        numbers_bundle(provider, subject, bundle) <==> ({
            &&& bundle.signature_valid && bundle.format_version == 1
            &&& bundle.subject == subject && bundle.publisher == bundle.signer
            &&& bundle.sequence >= 1
            &&& peer_of_key(bundle.publisher@) matches Some(peer) && peer_text(peer) == provider
        }),
{
}

/// The numbers that records tell of are those of just the records that tell of
/// one, in order.
pub proof fn numbers_are_those_that_records_tell(
    publisher: Id32,
    provider: Seq<char>,
    subject: Id32,
    endpoints: Seq<Option<SignedEndpoints>>,
    bundles: Seq<Option<SignedBundle>>,
)
    ensures
        forall|i: int|
            0 <= i < endpoints.len() ==> ((#[trigger] endpoints[i]) matches Some(record)
                ==> numbers_endpoints(publisher, record@) ==> endpoint_numbers(
                publisher,
                endpoints,
            ).contains(observed_endpoints(record@))),
        forall|k: int|
            0 <= k < endpoint_numbers(publisher, endpoints).len() ==> tells_endpoints(
                endpoints,
                publisher,
                #[trigger] endpoint_numbers(publisher, endpoints)[k],
            ),
        forall|i: int|
            0 <= i < bundles.len() ==> ((#[trigger] bundles[i]) matches Some(record)
                ==> numbers_bundle(provider, subject, record@) ==> bundle_numbers(
                provider,
                subject,
                bundles,
            ).contains(observed_bundle(record@))),
        forall|k: int|
            0 <= k < bundle_numbers(provider, subject, bundles).len() ==> tells_bundle(
                bundles,
                provider,
                subject,
                #[trigger] bundle_numbers(provider, subject, bundles)[k],
            ),
    decreases endpoints.len() + bundles.len(),
{
    if endpoints.len() > 0 {
        let fewer = endpoints.drop_last();
        numbers_are_those_that_records_tell(publisher, provider, subject, fewer, bundles);
        let before = endpoint_numbers(publisher, fewer);
        let after = endpoint_numbers(publisher, endpoints);
        assert forall|i: int| 0 <= i < endpoints.len() implies ((#[trigger] endpoints[i])
            matches Some(record) ==> numbers_endpoints(publisher, record@) ==> after.contains(
            observed_endpoints(record@),
        )) by {
            if let Some(record) = endpoints[i] {
                if numbers_endpoints(publisher, record@) {
                    if i < fewer.len() {
                        assert(fewer[i] == endpoints[i]);
                        assert(before.contains(observed_endpoints(record@)));
                        let k = choose|k: int|
                            0 <= k < before.len() && before[k] == observed_endpoints(record@);
                        assert(after[k] == before[k]);
                    } else {
                        assert(after[before.len() as int] == observed_endpoints(record@));
                    }
                }
            }
        }
        assert forall|k: int| 0 <= k < after.len() implies tells_endpoints(
            endpoints,
            publisher,
            #[trigger] after[k],
        ) by {
            if k < before.len() {
                assert(after[k] == before[k]);
                assert(tells_endpoints(fewer, publisher, before[k]));
                let i = choose|i: int|
                    0 <= i < fewer.len() && (#[trigger] fewer[i]) is Some && numbers_endpoints(
                        publisher,
                        fewer[i]->0@,
                    ) && observed_endpoints(fewer[i]->0@) == before[k];
                assert(endpoints[i] == fewer[i]);
            } else {
                assert(endpoints[endpoints.len() - 1] is Some);
            }
        }
    } else if bundles.len() > 0 {
        let fewer = bundles.drop_last();
        numbers_are_those_that_records_tell(publisher, provider, subject, endpoints, fewer);
        let before = bundle_numbers(provider, subject, fewer);
        let after = bundle_numbers(provider, subject, bundles);
        assert forall|i: int| 0 <= i < bundles.len() implies ((#[trigger] bundles[i])
            matches Some(record) ==> numbers_bundle(provider, subject, record@) ==> after.contains(
            observed_bundle(record@),
        )) by {
            if let Some(record) = bundles[i] {
                if numbers_bundle(provider, subject, record@) {
                    if i < fewer.len() {
                        assert(fewer[i] == bundles[i]);
                        assert(before.contains(observed_bundle(record@)));
                        let k = choose|k: int|
                            0 <= k < before.len() && before[k] == observed_bundle(record@);
                        assert(after[k] == before[k]);
                    } else {
                        assert(after[before.len() as int] == observed_bundle(record@));
                    }
                }
            }
        }
        assert forall|k: int| 0 <= k < after.len() implies tells_bundle(
            bundles,
            provider,
            subject,
            #[trigger] after[k],
        ) by {
            if k < before.len() {
                assert(after[k] == before[k]);
                assert(tells_bundle(fewer, provider, subject, before[k]));
                let i = choose|i: int|
                    0 <= i < fewer.len() && (#[trigger] fewer[i]) is Some && numbers_bundle(
                        provider,
                        subject,
                        fewer[i]->0@,
                    ) && observed_bundle(fewer[i]->0@) == before[k];
                assert(bundles[i] == fewer[i]);
            } else {
                assert(bundles[bundles.len() - 1] is Some);
            }
        }
    }
}

/// A record of endpoints tells of a number.
pub open spec fn tells_endpoints(
    records: Seq<Option<SignedEndpoints>>,
    publisher: Id32,
    number: ObservationModel,
) -> bool {
    exists|i: int|
        0 <= i < records.len() && (#[trigger] records[i]) is Some && numbers_endpoints(
            publisher,
            records[i]->0@,
        ) && observed_endpoints(records[i]->0@) == number
}

/// A sealed recovery record tells of a number.
pub open spec fn tells_bundle(
    records: Seq<Option<SignedBundle>>,
    provider: Seq<char>,
    subject: Id32,
    number: ObservationModel,
) -> bool {
    exists|i: int|
        0 <= i < records.len() && (#[trigger] records[i]) is Some && numbers_bundle(
            provider,
            subject,
            records[i]->0@,
        ) && observed_bundle(records[i]->0@) == number
}

} // verus!
