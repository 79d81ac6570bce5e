//! The recovery directory: what publishers may put there, and what a lookup
//! gives back.

use crate::address::same_bytes;
use crate::ids::Id32;
use crate::ordered::{distinct, in_rank_order, models, OrderedSet, Ranked};
use vstd::prelude::*;

verus! {

/// A recovery record as the directory keeps it.
#[derive(Debug)]
pub struct DirectoryRecord {
    pub subject: Id32,
    pub publisher: Id32,
    pub checkpoint_hash: Id32,
    pub checkpoint_generation: u64,
    /// The whole signed record, as it is handed out.
    pub signed: Vec<u8>,
}

/// What a record is, for contracts.
pub struct RecordModel {
    pub subject: Id32,
    pub publisher: Id32,
    pub checkpoint_hash: Id32,
    pub checkpoint_generation: u64,
    pub signed: Seq<u8>,
}

impl View for DirectoryRecord {
    type V = RecordModel;

    open spec fn view(&self) -> RecordModel {
        RecordModel {
            subject: self.subject,
            publisher: self.publisher,
            checkpoint_hash: self.checkpoint_hash,
            checkpoint_generation: self.checkpoint_generation,
            signed: self.signed@,
        }
    }
}

fn copy_bytes(bytes: &Vec<u8>) -> (copy: Vec<u8>)
    ensures
        copy@ == bytes@,
{
    let mut copy: Vec<u8> = Vec::new();
    let mut i: usize = 0;
    while i < bytes.len()
        invariant
            i <= bytes@.len(),
            copy@ == bytes@.take(i as int),
        decreases bytes@.len() - i,
    {
        copy.push(bytes[i]);
        assert(bytes@.take(i + 1) =~= bytes@.take(i as int).push(bytes@[i as int]));
        i += 1;
    }
    assert(bytes@.take(i as int) =~= bytes@);
    copy
}

/// Records stand by subject, and under a subject by publisher.
impl Ranked for DirectoryRecord {
    type Model = RecordModel;

    open spec fn model(&self) -> RecordModel {
        self@
    }

    open spec fn rank_of(model: RecordModel) -> Seq<u8> {
        model.subject@ + model.publisher@
    }

    fn rank(&self) -> (bytes: Vec<u8>) {
        let mut bytes: Vec<u8> = Vec::new();
        let mut i: usize = 0;
        while i < 32
            invariant
                i <= 32,
                bytes@ == self.subject@.take(i as int),
            decreases 32 - i,
        {
            bytes.push(self.subject.0[i]);
            assert(self.subject@.take(i + 1) =~= self.subject@.take(i as int).push(
                self.subject@[i as int],
            ));
            i += 1;
        }
        assert(self.subject@.take(32) =~= self.subject@);
        let mut j: usize = 0;
        assert(bytes@ =~= self.subject@ + self.publisher@.take(0));
        while j < 32
            invariant
                j <= 32,
                bytes@ == self.subject@ + self.publisher@.take(j as int),
            decreases 32 - j,
        {
            bytes.push(self.publisher.0[j]);
            assert(self.publisher@.take(j + 1) =~= self.publisher@.take(j as int).push(
                self.publisher@[j as int],
            ));
            assert(bytes@ =~= self.subject@ + self.publisher@.take(j + 1));
            j += 1;
        }
        assert(self.publisher@.take(32) =~= self.publisher@);
        bytes
    }

    fn same(&self, other: &Self) -> (result: bool) {
        self.subject.equals(&other.subject) && self.publisher.equals(&other.publisher)
            && self.checkpoint_hash.equals(&other.checkpoint_hash) && self.checkpoint_generation
            == other.checkpoint_generation && same_bytes(
            self.signed.as_slice(),
            other.signed.as_slice(),
        )
    }

    fn duplicate(&self) -> (copy: Self) {
        DirectoryRecord {
            subject: self.subject,
            publisher: self.publisher,
            checkpoint_hash: self.checkpoint_hash,
            checkpoint_generation: self.checkpoint_generation,
            signed: copy_bytes(&self.signed),
        }
    }
}

/// A record that a publisher sends, with what its envelope says.
#[derive(Debug)]
pub struct Publication {
    pub signature_valid: bool,
    pub signer: Id32,
    pub format_version: u16,
    pub expires_at_unix_seconds: u64,
    pub record: DirectoryRecord,
}

/// A publication is admissible: rightly signed by its publisher, of the first
/// format, and without an expiry.
pub open spec fn admissible(publication: Publication) -> bool {
    &&& publication.signature_valid
    &&& publication.signer == publication.record.publisher
    &&& publication.format_version == 1
    &&& publication.expires_at_unix_seconds == u64::MAX
}

impl Publication {
    /// Whether the publication is admissible.
    pub fn is_admissible(&self) -> (result: bool)
        ensures
            result == admissible(*self),
    {
        self.signature_valid && self.signer.equals(&self.record.publisher) && self.format_version
            == 1 && self.expires_at_unix_seconds == u64::MAX
    }
}

/// Two records are of the same subject and publisher.
pub open spec fn same_slot(a: RecordModel, b: RecordModel) -> bool {
    a.subject == b.subject && a.publisher == b.publisher
}

/// A record would roll its publisher back or fork it, given the one that
/// stands: an older generation, or another checkpoint of the same one.
pub open spec fn conflicts(current: RecordModel, next: RecordModel) -> bool {
    ||| current.checkpoint_generation > next.checkpoint_generation
    ||| current.checkpoint_generation == next.checkpoint_generation && current.checkpoint_hash
        != next.checkpoint_hash
}

/// What the directory answers to a publication.
#[derive(Clone, Copy, Debug, PartialEq, Eq, Structural)]
pub enum PublishOutcome {
    Accepted,
    InvalidSignature,
    RollbackOrFork,
}

/// What the directory answers to a publication, given what it holds.
pub open spec fn publish_outcome(
    records: Set<RecordModel>,
    publication: Publication,
) -> PublishOutcome {
    if !admissible(publication) {
        PublishOutcome::InvalidSignature
    } else if exists|current: RecordModel| #[trigger]
        records.contains(current) && same_slot(current, publication.record@) && conflicts(
            current,
            publication.record@,
        ) {
        PublishOutcome::RollbackOrFork
    } else {
        PublishOutcome::Accepted
    }
}

/// The records after one of them is put in the place of its predecessor.
pub open spec fn with_record(records: Set<RecordModel>, record: RecordModel) -> Set<RecordModel> {
    records.filter(|other: RecordModel| !same_slot(other, record)).insert(record)
}

/// The records after a publication.
pub open spec fn after_publication(
    records: Set<RecordModel>,
    publication: Publication,
) -> Set<RecordModel> {
    if publish_outcome(records, publication) == PublishOutcome::Accepted {
        with_record(records, publication.record@)
    } else {
        records
    }
}

/// The records of a subject.
pub open spec fn records_of(records: Set<RecordModel>, subject: Id32) -> Set<RecordModel> {
    records.filter(|record: RecordModel| record.subject == subject)
}

/// The newest record of every publisher, for every subject.
pub struct DirectoryState {
    records: OrderedSet<DirectoryRecord>,
}

impl DirectoryState {
    pub closed spec fn view(&self) -> Set<RecordModel> {
        self.records@
    }

    /// The directory holds one record at most of a publisher for a subject.
    pub open spec fn one_per_slot(records: Set<RecordModel>) -> bool {
        forall|a: RecordModel, b: RecordModel| #[trigger]
            records.contains(a) && #[trigger] records.contains(b) && same_slot(a, b) ==> a == b
    }

    pub closed spec fn wf(&self) -> bool {
        self.records.wf() && Self::one_per_slot(self.records@)
    }

    pub fn new() -> (state: Self)
        ensures
            state.wf(),
            state@ == Set::<RecordModel>::empty(),
    {
        DirectoryState { records: OrderedSet::new() }
    }

    /// Takes a publication in, or says why not. A record never replaces a
    /// newer one, nor another checkpoint of the same generation.
    pub fn publish(&mut self, publication: Publication) -> (outcome: PublishOutcome)
        requires
            old(self).wf(),
        ensures
            final(self).wf(),
            outcome == publish_outcome(old(self)@, publication),
            final(self)@ == after_publication(old(self)@, publication),
    {
        if !publication.is_admissible() {
            return PublishOutcome::InvalidSignature;
        }
        let record = publication.record;
        let ghost before = self.records@;
        let ghost next = record@;
        let mut i: usize = 0;
        let total: usize = self.records.len();
        let mut current: Option<DirectoryRecord> = None;
        while i < total
            invariant
                i <= total == self.records.seq().len(),
                *self == *old(self),
                self.wf(),
                before == self.records@,
                next == record@,
                current is None ==> forall|k: int|
                    0 <= k < i ==> !same_slot(#[trigger] self.records.seq()[k], next),
                current matches Some(found) ==> before.contains(found@) && same_slot(found@, next),
            decreases total - i,
        {
            let candidate = self.records.get(i);
            if candidate.subject.equals(&record.subject) && candidate.publisher.equals(
                &record.publisher,
            ) {
                current = Some(candidate.duplicate());
            }
            i += 1;
        }
        match current {
            Some(found) => {
                let rolls_back = found.checkpoint_generation > record.checkpoint_generation;
                let forks = found.checkpoint_generation == record.checkpoint_generation
                    && !found.checkpoint_hash.equals(&record.checkpoint_hash);
                proof {
                    assert(before.contains(found@));
                    assert forall|other: RecordModel| #[trigger]
                        before.contains(other) && same_slot(other, next) implies other == found@ by {
                    }
                }
                if rolls_back || forks {
                    return PublishOutcome::RollbackOrFork;
                }
                let _ = self.records.remove(&found);
                let _ = self.records.insert(record);
                proof {
                    assert(self.records@ =~= with_record(before, next));
                    lemma_with_record_one_per_slot(before, next);
                }
                PublishOutcome::Accepted
            },
            None => {
                proof {
                    assert forall|other: RecordModel| #[trigger] before.contains(other) implies !same_slot(
                        other,
                        next,
                    ) by {
                        let k = choose|k: int|
                            0 <= k < self.records.seq().len() && self.records.seq()[k] == other;
                        assert(!same_slot(self.records.seq()[k], next));
                    }
                }
                let _ = self.records.insert(record);
                proof {
                    assert(self.records@ =~= with_record(before, next));
                    lemma_with_record_one_per_slot(before, next);
                }
                PublishOutcome::Accepted
            },
        }
    }

    /// The records of a subject, in the order of their publishers.
    pub fn lookup(&self, subject: &Id32) -> (found: Vec<DirectoryRecord>)
        requires
            self.wf(),
        ensures
            models(found@).to_set() == records_of(self@, *subject),
            distinct(models(found@)),
            in_rank_order::<DirectoryRecord>(models(found@)),
    {
        let mut found: OrderedSet<DirectoryRecord> = OrderedSet::new();
        let total: usize = self.records.len();
        let mut i: usize = 0;
        assert(found@ =~= records_of(self.records.seq().take(0).to_set(), *subject));
        while i < total
            invariant
                i <= total == self.records.seq().len(),
                self.wf(),
                found.wf(),
                found@ == records_of(self.records.seq().take(i as int).to_set(), *subject),
            decreases total - i,
        {
            let record = self.records.get(i);
            proof {
                let taken = self.records.seq().take(i as int);
                let next = self.records.seq().take(i + 1);
                assert(next =~= taken.push(record@));
                crate::ordered::lemma_push_set(taken, record@);
            }
            let ghost before = found@;
            if record.subject.equals(subject) {
                let _ = found.insert(record.duplicate());
            }
            assert(found@ =~= records_of(self.records.seq().take(i + 1).to_set(), *subject));
            i += 1;
        }
        assert(self.records.seq().take(i as int) =~= self.records.seq());
        found.to_vec()
    }
}

proof fn lemma_with_record_one_per_slot(records: Set<RecordModel>, record: RecordModel)
    requires
        DirectoryState::one_per_slot(records),
    ensures
        DirectoryState::one_per_slot(with_record(records, record)),
{
}

/// An accepted record is found under its subject, alone of its publisher, and
/// nothing else of the directory changes.
pub proof fn lookup_gives_back_what_was_published(
    records: Set<RecordModel>,
    publication: Publication,
    other: RecordModel,
)
    requires
        DirectoryState::one_per_slot(records),
        publish_outcome(records, publication) == PublishOutcome::Accepted,
        !same_slot(other, publication.record@),
    ensures
        ({
            let after = with_record(records, publication.record@);
            let record = publication.record@;
            &&& DirectoryState::one_per_slot(after)
            &&& records_of(after, record.subject).contains(record)
            &&& forall|r: RecordModel| #[trigger]
                after.contains(r) && same_slot(r, record) ==> r == record
            &&& after.contains(other) == records.contains(other)
        }),
{
    lemma_with_record_one_per_slot(records, publication.record@);
}

/// Whatever is published, the generation that the directory holds of a
/// publisher for a subject never goes down, and within one generation its
/// checkpoint never changes.
pub proof fn directory_never_rolls_back_or_forks(
    records: Set<RecordModel>,
    publication: Publication,
    before: RecordModel,
)
    requires
        DirectoryState::one_per_slot(records),
        records.contains(before),
    ensures
        exists|now: RecordModel| #[trigger]
            after_publication(records, publication).contains(now) && same_slot(now, before)
                && now.checkpoint_generation >= before.checkpoint_generation && (
            now.checkpoint_generation == before.checkpoint_generation ==> now.checkpoint_hash
                == before.checkpoint_hash),
{
    let record = publication.record@;
    let after = after_publication(records, publication);
    if publish_outcome(records, publication) == PublishOutcome::Accepted {
        if same_slot(before, record) {
            assert(!conflicts(before, record));
            assert(after.contains(record));
        } else {
            assert(after.contains(before));
        }
    } else {
        assert(after.contains(before));
    }
}

/// What a directory hands back.
#[derive(Debug)]
pub enum DirectoryResponse {
    Records(Vec<DirectoryRecord>),
    Ack,
    Error(String),
}

/// Why the answer of a directory is of no use.
#[derive(Debug)]
pub enum DirectoryFailure {
    Refused(String),
    WrongAnswer,
}

/// What the answer to a publication means.
pub fn publish_answer(response: DirectoryResponse) -> (result: Result<(), DirectoryFailure>)
    ensures
        result == (match response {
            DirectoryResponse::Ack => Ok(()),
            DirectoryResponse::Error(message) => Err(DirectoryFailure::Refused(message)),
            DirectoryResponse::Records(_) => Err(DirectoryFailure::WrongAnswer),
        }),
{
    match response {
        DirectoryResponse::Ack => Ok(()),
        DirectoryResponse::Error(message) => Err(DirectoryFailure::Refused(message)),
        DirectoryResponse::Records(_) => Err(DirectoryFailure::WrongAnswer),
    }
}

/// What the answer to a lookup means.
pub fn lookup_answer(response: DirectoryResponse) -> (result: Result<
    Vec<DirectoryRecord>,
    DirectoryFailure,
>)
    ensures
        result == (match response {
            DirectoryResponse::Records(records) => Ok(records),
            DirectoryResponse::Error(message) => Err(DirectoryFailure::Refused(message)),
            DirectoryResponse::Ack => Err(DirectoryFailure::WrongAnswer),
        }),
{
    match response {
        DirectoryResponse::Records(records) => Ok(records),
        DirectoryResponse::Error(message) => Err(DirectoryFailure::Refused(message)),
        DirectoryResponse::Ack => Err(DirectoryFailure::WrongAnswer),
    }
}

/// A directory accepts just what is validly signed by its publisher, in the first
/// format and without end, unless it holds of the same publisher, about the same
/// subject, a later generation, or another checkpoint of the same one. What is
/// not accepted changes nothing, and what is looked up is all that is held about a
/// subject.
pub proof fn a_directory_accepts_what_is_newer(
    records: Set<RecordModel>,
    publication: Publication,
    subject: Id32,
    record: RecordModel,
)
    ensures
        ({
            let next = publication.record@;
            let signed = publication.signature_valid && publication.signer == next.publisher
                && publication.format_version == 1 && publication.expires_at_unix_seconds
                == u64::MAX;
            let outdone = exists|current: RecordModel| #[trigger]
                records.contains(current) && current.subject == next.subject && current.publisher
                    == next.publisher && (current.checkpoint_generation
                    > next.checkpoint_generation || (current.checkpoint_generation
                    == next.checkpoint_generation && current.checkpoint_hash
                    != next.checkpoint_hash));
            &&& publish_outcome(records, publication) == (if !signed {
                PublishOutcome::InvalidSignature
            } else if outdone {
                PublishOutcome::RollbackOrFork
            } else {
                PublishOutcome::Accepted
            })
            &&& signed && !outdone ==> after_publication(records, publication).contains(next)
            &&& !(signed && !outdone) ==> after_publication(records, publication) == records
        }),
        records_of(records, subject).contains(record) <==> records.contains(record)
            && record.subject == subject,
{
    let next = publication.record@;
    if exists|current: RecordModel| #[trigger]
        records.contains(current) && same_slot(current, next) && conflicts(current, next) {
        let current = choose|current: RecordModel| #[trigger]
            records.contains(current) && same_slot(current, next) && conflicts(current, next);
        assert(records.contains(current) && current.subject == next.subject);
    }
}

} // verus!
