//! Service over direct connections: who may ask for what, what a directory
//! record is worth, and how a node is recovered from such records.

use crate::ids::Id32;
use crate::recovery::RecoveryLocator;
use vstd::prelude::*;
use vstd::string::StrSliceExecFns;

verus! {

/// What a recovery record is to say.
#[derive(Clone, Copy, Debug)]
pub struct RecordRequest {
    pub subject: Id32,
    pub guild_id: Id32,
    pub checkpoint_hash: Id32,
    pub checkpoint_generation: u64,
    pub expires_at_unix_seconds: u64,
}

/// What a peer may ask for over a direct connection.
#[derive(Clone, Copy, Debug)]
pub enum DirectRequest {
    Profile,
    PrepareSource,
    EnsureFiller,
    GetSector,
    PublishParity,
    GetParity,
    SignCheckpoint,
    StoreCheckpoint,
    GetCheckpoint,
    BuildRecoveryRecord(RecordRequest),
}

impl DirectRequest {
    /// The name under which a change is remembered; none for what only reads.
    pub open spec fn kind(self) -> Option<Seq<char>> {
        match self {
            DirectRequest::Profile | DirectRequest::GetSector | DirectRequest::GetParity
            | DirectRequest::GetCheckpoint => None,
            DirectRequest::PrepareSource => Some("prepare-source"@),
            DirectRequest::EnsureFiller => Some("ensure-filler"@),
            DirectRequest::PublishParity => Some("publish-parity"@),
            DirectRequest::SignCheckpoint => Some("sign-checkpoint"@),
            DirectRequest::StoreCheckpoint => Some("store-checkpoint"@),
            DirectRequest::BuildRecoveryRecord(_) => Some("build-recovery-record"@),
        }
    }

    /// The name under which a change is remembered.
    pub fn mutation_kind(&self) -> (kind: Option<&'static str>)
        ensures
            (match kind {
                Some(kind) => Some(kind@),
                None => None,
            }) == self.kind(),
    {
        match self {
            DirectRequest::Profile | DirectRequest::GetSector | DirectRequest::GetParity
            | DirectRequest::GetCheckpoint => None,
            DirectRequest::PrepareSource => Some("prepare-source"),
            DirectRequest::EnsureFiller => Some("ensure-filler"),
            DirectRequest::PublishParity => Some("publish-parity"),
            DirectRequest::SignCheckpoint => Some("sign-checkpoint"),
            DirectRequest::StoreCheckpoint => Some("store-checkpoint"),
            DirectRequest::BuildRecoveryRecord(_) => Some("build-recovery-record"),
        }
    }
}

/// Why a request is refused.
#[derive(Clone, Copy, Debug, PartialEq, Eq, Structural)]
pub enum RequestRefusal {
    Signature,
    NotCoordinator,
    /// Only a node itself may have its sources captured.
    NotSource,
    /// What is remembered under the request's number speaks against it.
    Conflict,
}

/// What is remembered under the number and kind of a request, for its caller
/// and its hash.
#[derive(Clone, Copy, Debug, PartialEq, Eq, Structural)]
pub enum RememberedChange {
    Nothing,
    /// The outcome of the same request.
    Outcome,
    /// The lookup was refused.
    Refused,
}

/// What is done with a request.
#[derive(Clone, Copy, Debug, PartialEq, Eq, Structural)]
pub enum RequestStep {
    /// It is carried out.
    Execute,
    /// It is carried out, and its outcome is remembered.
    ExecuteAndRemember,
    /// It was carried out before: its outcome is repeated.
    Repeat,
}

/// What is done with a request. A change is for the coordinator alone, and is
/// carried out once however often it is asked for.
pub open spec fn request_step(
    request: DirectRequest,
    signature_valid: bool,
    caller: Id32,
    coordinator: Id32,
    local: Id32,
    remembered: RememberedChange,
) -> Result<RequestStep, RequestRefusal> {
    if !signature_valid {
        Err(RequestRefusal::Signature)
    } else if request.kind() is Some && caller != coordinator {
        Err(RequestRefusal::NotCoordinator)
    } else if request is PrepareSource && caller != local {
        Err(RequestRefusal::NotSource)
    } else if request.kind() is None {
        Ok(RequestStep::Execute)
    } else {
        match remembered {
            RememberedChange::Nothing => Ok(RequestStep::ExecuteAndRemember),
            RememberedChange::Outcome => Ok(RequestStep::Repeat),
            RememberedChange::Refused => Err(RequestRefusal::Conflict),
        }
    }
}

/// What is done with a request.
pub fn process_peer_request(
    request: DirectRequest,
    signature_valid: bool,
    caller: &Id32,
    coordinator: &Id32,
    local: &Id32,
    remembered: RememberedChange,
) -> (step: Result<RequestStep, RequestRefusal>)
    ensures
        step == request_step(
            request,
            signature_valid,
            *caller,
            *coordinator,
            *local,
            remembered,
        ),
{
    if !signature_valid {
        return Err(RequestRefusal::Signature);
    }
    let changes = request.mutation_kind().is_some();
    if changes && !caller.equals(coordinator) {
        return Err(RequestRefusal::NotCoordinator);
    }
    if matches!(request, DirectRequest::PrepareSource) && !caller.equals(local) {
        return Err(RequestRefusal::NotSource);
    }
    if !changes {
        return Ok(RequestStep::Execute);
    }
    match remembered {
        RememberedChange::Nothing => Ok(RequestStep::ExecuteAndRemember),
        RememberedChange::Outcome => Ok(RequestStep::Repeat),
        RememberedChange::Refused => Err(RequestRefusal::Conflict),
    }
}

/// Only the coordinator changes anything, only a node itself has its sources
/// captured, and a change whose outcome is remembered is not made again.
pub proof fn changes_are_guarded(
    request: DirectRequest,
    signature_valid: bool,
    caller: Id32,
    coordinator: Id32,
    local: Id32,
    remembered: RememberedChange,
)
    ensures
        ({
            let step = request_step(
                request,
                signature_valid,
                caller,
                coordinator,
                local,
                remembered,
            );
            &&& step == Ok::<RequestStep, RequestRefusal>(RequestStep::ExecuteAndRemember)
                ==> signature_valid && caller == coordinator && remembered
                == RememberedChange::Nothing
            &&& request is PrepareSource && step is Ok ==> caller == local
            &&& step == Ok::<RequestStep, RequestRefusal>(RequestStep::Execute)
                ==> request.kind() is None
        }),
{
}

/// A state that is kept, as far as a recovery record about it is checked.
#[derive(Clone, Copy, Debug)]
pub struct KeptState {
    pub guild_id: Id32,
    pub generation: u64,
    /// The state names the node that the record is about as a member.
    pub names_subject: bool,
}

/// Why no recovery record is made.
#[derive(Clone, Copy, Debug, PartialEq, Eq, Structural)]
pub enum RecordRefusal {
    /// Records over direct connections must not expire.
    Expires,
    /// The record would not match the state that is kept.
    WrongState,
}

/// What an answer over a direct connection holds.
#[derive(Clone, Copy, Debug, PartialEq, Eq, Structural)]
pub enum DirectAnswer {
    Profile,
    Prepared,
    Filler,
    Bytes,
    CheckpointSignature,
    Checkpoint,
    RecoveryRecord,
    Ack,
}

impl DirectRequest {
    /// What the answer to a request holds.
    pub open spec fn answer(self) -> DirectAnswer {
        match self {
            DirectRequest::Profile => DirectAnswer::Profile,
            DirectRequest::PrepareSource => DirectAnswer::Prepared,
            DirectRequest::EnsureFiller => DirectAnswer::Filler,
            DirectRequest::GetSector | DirectRequest::GetParity => DirectAnswer::Bytes,
            DirectRequest::PublishParity | DirectRequest::StoreCheckpoint => DirectAnswer::Ack,
            DirectRequest::SignCheckpoint => DirectAnswer::CheckpointSignature,
            DirectRequest::GetCheckpoint => DirectAnswer::Checkpoint,
            DirectRequest::BuildRecoveryRecord(_) => DirectAnswer::RecoveryRecord,
        }
    }

    fn expected_answer(&self) -> (answer: DirectAnswer)
        ensures
            answer == self.answer(),
    {
        match self {
            DirectRequest::Profile => DirectAnswer::Profile,
            DirectRequest::PrepareSource => DirectAnswer::Prepared,
            DirectRequest::EnsureFiller => DirectAnswer::Filler,
            DirectRequest::GetSector | DirectRequest::GetParity => DirectAnswer::Bytes,
            DirectRequest::PublishParity | DirectRequest::StoreCheckpoint => DirectAnswer::Ack,
            DirectRequest::SignCheckpoint => DirectAnswer::CheckpointSignature,
            DirectRequest::GetCheckpoint => DirectAnswer::Checkpoint,
            DirectRequest::BuildRecoveryRecord(_) => DirectAnswer::RecoveryRecord,
        }
    }
}

/// What carrying out a request takes next.
#[derive(Clone, Copy, Debug)]
pub enum ExecutionStep {
    /// The node does what is asked; its answer holds this.
    Perform(DirectAnswer),
    /// The state with this hash is looked up first.
    LoadState(Id32),
    Refuse(RecordRefusal),
}

/// What carrying out a request takes next, given the state that was looked up
/// for it, if any was.
pub open spec fn execution_step(request: DirectRequest, state: Option<KeptState>) -> ExecutionStep {
    match request {
        DirectRequest::BuildRecoveryRecord(record) => {
            if record.expires_at_unix_seconds != u64::MAX {
                ExecutionStep::Refuse(RecordRefusal::Expires)
            } else {
                match state {
                    None => ExecutionStep::LoadState(record.checkpoint_hash),
                    Some(state) => if state.guild_id != record.guild_id || state.generation
                        != record.checkpoint_generation || !state.names_subject {
                        ExecutionStep::Refuse(RecordRefusal::WrongState)
                    } else {
                        ExecutionStep::Perform(DirectAnswer::RecoveryRecord)
                    },
                }
            }
        },
        _ => ExecutionStep::Perform(request.answer()),
    }
}

/// What carrying out a request takes next. A recovery record must not expire,
/// and must match the state that is kept under the hash it names.
pub fn execute_peer_request(request: &DirectRequest, state: Option<KeptState>) -> (step:
    ExecutionStep)
    ensures
        step == execution_step(*request, state),
{
    match request {
        DirectRequest::BuildRecoveryRecord(record) => {
            if record.expires_at_unix_seconds != u64::MAX {
                return ExecutionStep::Refuse(RecordRefusal::Expires);
            }
            match state {
                None => ExecutionStep::LoadState(record.checkpoint_hash),
                Some(state) => {
                    if !state.guild_id.equals(&record.guild_id) || state.generation
                        != record.checkpoint_generation || !state.names_subject {
                        ExecutionStep::Refuse(RecordRefusal::WrongState)
                    } else {
                        ExecutionStep::Perform(DirectAnswer::RecoveryRecord)
                    }
                },
            }
        },
        _ => ExecutionStep::Perform(request.expected_answer()),
    }
}

/// A reply that came over a direct connection.
#[derive(Clone, Copy, Debug)]
pub struct DirectReply {
    /// The signature over the reply is that of its signer.
    pub signature_valid: bool,
    pub signer: Id32,
    /// The number of the request that it answers.
    pub request_id: u128,
    /// What it holds; none where the peer tells of an error.
    pub answer: Option<DirectAnswer>,
}

/// Why a reply is not taken.
#[derive(Clone, Copy, Debug, PartialEq, Eq, Structural)]
pub enum CallError {
    Signature,
    /// It answers another request.
    WrongRequest,
    /// The peer tells of an error.
    Refused,
    /// Another than the one that was called has signed it.
    WrongSigner,
    /// It holds something else than was asked for.
    WrongAnswer,
}

/// What a reply to the request with a number holds, and who signed it.
pub open spec fn reply_taken(reply: DirectReply, request_id: u128) -> Result<
    (Id32, DirectAnswer),
    CallError,
> {
    if !reply.signature_valid {
        Err(CallError::Signature)
    } else if reply.request_id != request_id {
        Err(CallError::WrongRequest)
    } else {
        match reply.answer {
            Some(answer) => Ok((reply.signer, answer)),
            None => Err(CallError::Refused),
        }
    }
}

/// What a reply to the request with a number holds, and who signed it.
pub fn peer_call(reply: &DirectReply, request_id: u128) -> (result: Result<
    (Id32, DirectAnswer),
    CallError,
>)
    ensures
        result == reply_taken(*reply, request_id),
{
    if !reply.signature_valid {
        return Err(CallError::Signature);
    }
    if reply.request_id != request_id {
        return Err(CallError::WrongRequest);
    }
    match reply.answer {
        Some(answer) => Ok((reply.signer, answer)),
        None => Err(CallError::Refused),
    }
}

/// What a reply to a request holds that was made to one peer.
pub open spec fn expected_reply(
    reply: DirectReply,
    request_id: u128,
    signer: Id32,
    request: DirectRequest,
) -> Result<(), CallError> {
    match reply_taken(reply, request_id) {
        Err(error) => Err(error),
        Ok((actual, answer)) => if actual != signer {
            Err(CallError::WrongSigner)
        } else if answer != request.answer() {
            Err(CallError::WrongAnswer)
        } else {
            Ok(())
        },
    }
}

/// Checks a reply to a request that was made to one peer.
pub fn peer_call_expected(
    reply: &DirectReply,
    request_id: u128,
    signer: &Id32,
    request: &DirectRequest,
) -> (result: Result<(), CallError>)
    ensures
        result == expected_reply(*reply, request_id, *signer, *request),
{
    match peer_call(reply, request_id) {
        Err(error) => Err(error),
        Ok((actual, answer)) => {
            if !actual.equals(signer) {
                Err(CallError::WrongSigner)
            } else if answer != request.expected_answer() {
                Err(CallError::WrongAnswer)
            } else {
                Ok(())
            }
        },
    }
}

/// What a peer answers to a request that it carries out is taken by the one who
/// made the request of that peer under that number, and by no one else.
pub proof fn answers_are_taken_where_they_belong(
    request: DirectRequest,
    state: Option<KeptState>,
    reply: DirectReply,
    request_id: u128,
    signer: Id32,
)
    requires
        execution_step(request, state) == ExecutionStep::Perform(request.answer()),
        reply.signature_valid,
        reply.answer == Some(request.answer()),
    ensures
        expected_reply(reply, request_id, signer, request) is Ok == (reply.request_id == request_id
            && reply.signer == signer),
{
}

/// A record as a directory hands it out.
#[derive(Clone, Copy, Debug)]
pub struct PublishedRecord {
    /// The signature over the record is that of its signer.
    pub signature_valid: bool,
    pub signer: Id32,
    pub format_version: u16,
    pub subject: Id32,
    pub publisher: Id32,
    pub guild_id: Id32,
    pub checkpoint_hash: Id32,
    pub checkpoint_generation: u64,
    pub expires_at_unix_seconds: u64,
}

/// A directory's record is signed by its publisher, about a node, and does not
/// expire.
pub open spec fn record_counts(record: PublishedRecord, local: Id32) -> bool {
    &&& record.signature_valid
    &&& record.signer == record.publisher
    &&& record.subject == local
    &&& record.format_version == 1
    &&& record.expires_at_unix_seconds == u64::MAX
}

/// The record that a node publishes where it was asked for one.
pub open spec fn built_record(request: RecordRequest, publisher: Id32) -> PublishedRecord {
    PublishedRecord {
        signature_valid: true,
        signer: publisher,
        format_version: 1,
        subject: request.subject,
        publisher,
        guild_id: request.guild_id,
        checkpoint_hash: request.checkpoint_hash,
        checkpoint_generation: request.checkpoint_generation,
        expires_at_unix_seconds: request.expires_at_unix_seconds,
    }
}

/// The record that a node signs and publishes where it was asked for one.
pub fn build_record(request: &RecordRequest, publisher: Id32) -> (record: PublishedRecord)
    ensures
        record == built_record(*request, publisher),
{
    PublishedRecord {
        signature_valid: true,
        signer: publisher,
        format_version: 1,
        subject: request.subject,
        publisher,
        guild_id: request.guild_id,
        checkpoint_hash: request.checkpoint_hash,
        checkpoint_generation: request.checkpoint_generation,
        expires_at_unix_seconds: request.expires_at_unix_seconds,
    }
}

/// A record that a node builds on request counts with its subject, and with no
/// one else.
pub proof fn built_records_count(
    request: RecordRequest,
    state: KeptState,
    publisher: Id32,
    local: Id32,
)
    requires
        execution_step(DirectRequest::BuildRecoveryRecord(request), Some(state)) is Perform,
    ensures
        record_counts(built_record(request, publisher), local) == (local == request.subject),
{
}

/// What was sealed in a directory's record says what the record says.
pub open spec fn sealed_counts(
    record: PublishedRecord,
    locator: RecoveryLocator,
    local: Id32,
) -> bool {
    &&& locator.signature_valid
    &&& locator.signer == locator.publisher
    &&& locator.subject == local
    &&& locator.format_version == 1
    &&& locator.expires_at_unix_seconds == u64::MAX
    &&& locator.publisher == record.publisher
    &&& locator.guild_id == record.guild_id
    &&& locator.checkpoint_hash == record.checkpoint_hash
    &&& locator.checkpoint_generation == record.checkpoint_generation
    &&& locator.expires_at_unix_seconds == record.expires_at_unix_seconds
}

/// Whether a directory's record counts before it is opened.
pub fn published_record_counts(record: &PublishedRecord, local: &Id32) -> (counts: bool)
    ensures
        counts == record_counts(*record, *local),
{
    record.signature_valid && record.signer.equals(&record.publisher) && record.subject.equals(
        local,
    ) && record.format_version == 1 && record.expires_at_unix_seconds == u64::MAX
}

/// Whether what was sealed in a directory's record counts.
pub fn sealed_record_counts(
    record: &PublishedRecord,
    locator: &RecoveryLocator,
    local: &Id32,
) -> (counts: bool)
    ensures
        counts == sealed_counts(*record, *locator, *local),
{
    locator.signature_valid && locator.signer.equals(&locator.publisher) && locator.subject.equals(
        local,
    ) && locator.format_version == 1 && locator.expires_at_unix_seconds == u64::MAX
        && locator.publisher.equals(&record.publisher) && locator.guild_id.equals(&record.guild_id)
        && locator.checkpoint_hash.equals(&record.checkpoint_hash) && locator.checkpoint_generation
        == record.checkpoint_generation && locator.expires_at_unix_seconds
        == record.expires_at_unix_seconds
}

/// A state that a publisher served, with the publisher.
#[derive(Clone, Copy, Debug)]
pub struct ServedCheckpoint {
    pub publisher: Id32,
    pub generation: u64,
    pub hash: Id32,
}

/// A served state is the one to recover: none is of a later generation, and
/// none behind it is of the same.
pub open spec fn is_newest_served(served: Seq<ServedCheckpoint>, i: int) -> bool {
    &&& 0 <= i < served.len()
    &&& forall|k: int|
        0 <= k < served.len() ==> (#[trigger] served[k]).generation <= served[i].generation
    &&& forall|k: int|
        i < k < served.len() ==> (#[trigger] served[k]).generation < served[i].generation
}

/// The place of the state to recover.
pub fn newest_served(served: &Vec<ServedCheckpoint>) -> (place: Option<usize>)
    ensures
        match place {
            Some(place) => is_newest_served(served@, place as int),
            None => served@.len() == 0,
        },
{
    if served.len() == 0 {
        return None;
    }
    let mut best: usize = 0;
    let mut i: usize = 1;
    while i < served.len()
        invariant
            1 <= i <= served@.len(),
            best < i,
            forall|k: int|
                0 <= k < i ==> (#[trigger] served@[k]).generation <= served@[best as int].generation,
            forall|k: int|
                best < k < i ==> (#[trigger] served@[k]).generation
                    < served@[best as int].generation,
        decreases served@.len() - i,
    {
        if served[i].generation >= served[best].generation {
            best = i;
        }
        i += 1;
    }
    Some(best)
}

pub(crate) proof fn lemma_newest_served(served: Seq<ServedCheckpoint>, place: int)
    requires
        is_newest_served(served, place),
    ensures
        newest_place(served) == Some(place),
{
    let other = choose|i: int| is_newest_served(served, i);
    assert(is_newest_served(served, other));
    assert(served[other].generation <= served[place].generation);
    assert(served[place].generation <= served[other].generation);
}

/// The place of the state to recover, if any was served.
pub open spec fn newest_place(served: Seq<ServedCheckpoint>) -> Option<int> {
    if exists|i: int| is_newest_served(served, i) {
        Some(choose|i: int| is_newest_served(served, i))
    } else {
        None
    }
}

/// The places of those that served a state.
pub open spec fn servers_of(served: Seq<ServedCheckpoint>, hash: Id32) -> Seq<usize>
    decreases served.len(),
{
    if served.len() == 0 {
        Seq::empty()
    } else {
        let before = servers_of(served.drop_last(), hash);
        if served.last().hash == hash {
            before.push((served.len() - 1) as usize)
        } else {
            before
        }
    }
}

/// The places of those that served a state. Where a publisher served it more
/// than once, the last place counts.
pub fn servers(served: &Vec<ServedCheckpoint>, hash: &Id32) -> (places: Vec<usize>)
    ensures
        places@ == servers_of(served@, *hash),
{
    let mut places: Vec<usize> = Vec::new();
    let mut i: usize = 0;
    assert(served@.take(0) =~= Seq::empty());
    while i < served.len()
        invariant
            i <= served@.len(),
            places@ == servers_of(served@.take(i as int), *hash),
        decreases served@.len() - i,
    {
        assert(served@.take(i + 1).drop_last() =~= served@.take(i as int));
        if served[i].hash.equals(hash) {
            places.push(i);
        }
        i += 1;
    }
    assert(served@.take(i as int) =~= served@);
    places
}

/// Whether a server can run: it names a failure domain, and takes connections.
pub fn server_config_valid(failure_domain: &str, max_connections: usize) -> (valid: bool)
    ensures
        valid == (failure_domain@.len() > 0 && max_connections > 0),
{
    failure_domain.unicode_len() > 0 && max_connections > 0
}

/// The scheme of direct endpoints.
pub open spec fn tcp_scheme() -> Seq<char> {
    "tcp://"@
}

/// The socket that a direct endpoint names, as text: what stands behind its
/// scheme.
pub fn parse_tcp_endpoint(endpoint: &str) -> (socket: Option<String>)
    ensures
        match socket {
            Some(socket) => endpoint@ == tcp_scheme() + socket@,
            None => !tcp_scheme().is_prefix_of(endpoint@),
        },
{
    proof {
        reveal_strlit("tcp://");
    }
    let scheme: &str = "tcp://";
    let length: usize = endpoint.unicode_len();
    if length < 6 {
        return None;
    }
    let mut i: usize = 0;
    while i < 6
        invariant
            i <= 6 <= length,
            length == endpoint@.len(),
            scheme@ == tcp_scheme(),
            scheme@.len() == 6,
            forall|k: int| 0 <= k < i ==> endpoint@[k] == scheme@[k],
        decreases 6 - i,
    {
        if endpoint.get_char(i) != scheme.get_char(i) {
            assert(endpoint@[i as int] != scheme@[i as int]);
            return None;
        }
        i += 1;
    }
    let socket = endpoint.substring_char(6, length).to_owned();
    assert(endpoint@ =~= tcp_scheme() + socket@);
    Some(socket)
}

/// The message for a lock that another holder left in an unknown state.
pub fn lock_error() -> (message: String)
    ensures
        message@ == "node state lock was poisoned"@,
{
    "node state lock was poisoned".to_owned()
}

/// Where something was served, something is the newest.
pub(crate) proof fn lemma_some_newest(served: Seq<ServedCheckpoint>)
    requires
        served.len() > 0,
    ensures
        exists|i: int| is_newest_served(served, i),
    decreases served.len(),
{
    let last = served.len() - 1;
    if last == 0 {
        assert(is_newest_served(served, 0));
    } else {
        let fewer = served.drop_last();
        lemma_some_newest(fewer);
        let i = choose|i: int| is_newest_served(fewer, i);
        if served[last].generation >= fewer[i].generation {
            assert forall|k: int| 0 <= k < served.len() implies (#[trigger] served[k]).generation
                <= served[last].generation by {
                if k < last {
                    assert(fewer[k] == served[k]);
                }
            }
            assert(is_newest_served(served, last));
        } else {
            assert forall|k: int| 0 <= k < served.len() implies (#[trigger] served[k]).generation
                <= served[i].generation by {
                if k < last {
                    assert(fewer[k] == served[k]);
                }
            }
            assert forall|k: int| i < k < served.len() implies (#[trigger] served[k]).generation
                < served[i].generation by {
                if k < last {
                    assert(fewer[k] == served[k]);
                }
            }
            assert(is_newest_served(served, i));
        }
    }
}

/// Those who served a state are all who did, in order, and no others.
pub proof fn all_who_served_are_servers(served: Seq<ServedCheckpoint>, hash: Id32)
    requires
        served.len() <= usize::MAX,
    ensures
        ({
            let places = servers_of(served, hash);
            &&& forall|i: int| 0 <= i < places.len() ==> #[trigger] places[i] < served.len()
            &&& forall|i: int, j: int|
                0 <= i < j < places.len() ==> #[trigger] places[i] < #[trigger] places[j]
            &&& forall|k: int|
                0 <= k < served.len() ==> ((#[trigger] served[k]).hash == hash <==> places.contains(
                    k as usize,
                ))
        }),
    decreases served.len(),
{
    if served.len() > 0 {
        let fewer = served.drop_last();
        all_who_served_are_servers(fewer, hash);
        let before = servers_of(fewer, hash);
        let after = servers_of(served, hash);
        assert forall|i: int| 0 <= i < after.len() implies #[trigger] after[i] < served.len() by {
            if i < before.len() {
                assert(after[i] == before[i]);
            }
        }
        assert forall|i: int, j: int| 0 <= i < j < after.len() implies #[trigger] after[i]
            < #[trigger] after[j] by {
            assert(after[i] == before[i]);
            if j < before.len() {
                assert(after[j] == before[j]);
            }
        }
        assert forall|k: int| 0 <= k < served.len() implies ((#[trigger] served[k]).hash == hash
            <==> after.contains(k as usize)) by {
            if k < fewer.len() {
                assert(fewer[k] == served[k]);
                if before.contains(k as usize) {
                    let m = choose|m: int| 0 <= m < before.len() && before[m] == k as usize;
                    assert(after[m] == k as usize);
                }
                if after.contains(k as usize) {
                    let m = choose|m: int| 0 <= m < after.len() && after[m] == k as usize;
                    assert(m < before.len());
                    assert(before[m] == k as usize);
                }
            } else {
                if served[k].hash == hash {
                    assert(after[before.len() as int] == k as usize);
                } else if after.contains(k as usize) {
                    let m = choose|m: int| 0 <= m < after.len() && after[m] == k as usize;
                    assert(before[m] < fewer.len());
                }
            }
        }
    }
}

/// What only reads is carried out for everyone who signs; a change only for the
/// coordinator, and preparing a source only where the node is its own
/// coordinator. A change that was carried out before is not carried out again.
pub proof fn changes_are_for_the_coordinator_alone(
    request: DirectRequest,
    signature_valid: bool,
    caller: Id32,
    coordinator: Id32,
    local: Id32,
    remembered: RememberedChange,
)
    ensures
        ({
            let step = request_step(
                request,
                signature_valid,
                caller,
                coordinator,
                local,
                remembered,
            );
            let reads = request is Profile || request is GetSector || request is GetParity
                || request is GetCheckpoint;
            &&& !signature_valid ==> step == Err::<RequestStep, RequestRefusal>(
                RequestRefusal::Signature,
            )
            &&& signature_valid && reads ==> step == Ok::<RequestStep, RequestRefusal>(
                RequestStep::Execute,
            )
            &&& signature_valid && !reads && caller != coordinator ==> step == Err::<
                RequestStep,
                RequestRefusal,
            >(RequestRefusal::NotCoordinator)
            &&& signature_valid && !reads && caller == coordinator && request is PrepareSource
                && caller != local ==> step == Err::<RequestStep, RequestRefusal>(
                RequestRefusal::NotSource,
            )
            &&& signature_valid && !reads && caller == coordinator && !(request is PrepareSource
                && caller != local) ==> step == (match remembered {
                RememberedChange::Nothing => Ok::<RequestStep, RequestRefusal>(
                    RequestStep::ExecuteAndRemember,
                ),
                RememberedChange::Outcome => Ok(RequestStep::Repeat),
                RememberedChange::Refused => Err(RequestRefusal::Conflict),
            })
        }),
{
}

/// Changes are remembered under names of their own: no two kinds of change share
/// one.
pub proof fn kinds_of_changes_have_names_of_their_own(one: DirectRequest, other: DirectRequest)
    requires
        one.kind() is Some,
        one.kind() == other.kind(),
    ensures
        one.answer() == other.answer(),
        one is PrepareSource <==> other is PrepareSource,
        one is EnsureFiller <==> other is EnsureFiller,
        one is PublishParity <==> other is PublishParity,
        one is SignCheckpoint <==> other is SignCheckpoint,
        one is StoreCheckpoint <==> other is StoreCheckpoint,
        one is BuildRecoveryRecord <==> other is BuildRecoveryRecord,
{
    reveal_strlit("prepare-source");
    reveal_strlit("ensure-filler");
    reveal_strlit("publish-parity");
    reveal_strlit("sign-checkpoint");
    reveal_strlit("store-checkpoint");
    reveal_strlit("build-recovery-record");
    assert("prepare-source"@.len() == 14 && "ensure-filler"@.len() == 13);
    assert("publish-parity"@.len() == 14 && "sign-checkpoint"@.len() == 15);
    assert("store-checkpoint"@.len() == 16 && "build-recovery-record"@.len() == 21);
    assert("prepare-source"@[1] == 'r' && "publish-parity"@[1] == 'u');
}

/// A recovery record is built only if it does not expire and is about the state
/// that the node keeps under the hash: of the same guild and generation, and
/// naming its subject. Everything else is carried out at once.
pub proof fn records_are_built_of_states_that_are_kept(
    record: RecordRequest,
    other: DirectRequest,
    state: KeptState,
)
    ensures
        ({
            let request = DirectRequest::BuildRecoveryRecord(record);
            let fits = state.guild_id == record.guild_id && state.generation
                == record.checkpoint_generation && state.names_subject;
            &&& record.expires_at_unix_seconds != u64::MAX ==> execution_step(request, Some(state))
                == ExecutionStep::Refuse(RecordRefusal::Expires) && execution_step(request, None)
                == ExecutionStep::Refuse(RecordRefusal::Expires)
            &&& record.expires_at_unix_seconds == u64::MAX ==> {
                &&& execution_step(request, None) == ExecutionStep::LoadState(
                    record.checkpoint_hash,
                )
                &&& execution_step(request, Some(state)) == (if fits {
                    ExecutionStep::Perform(DirectAnswer::RecoveryRecord)
                } else {
                    ExecutionStep::Refuse(RecordRefusal::WrongState)
                })
            }
        }),
        !(other is BuildRecoveryRecord) ==> execution_step(other, None) == ExecutionStep::Perform(
            other.answer(),
        ),
{
}

/// A record of a directory and what is sealed in it count for one node, that
/// they are about, and say the same: both signed by one publisher, in the first
/// format, of one guild and one state, and without end.
pub proof fn a_record_and_its_seal_agree(
    record: PublishedRecord,
    locator: RecoveryLocator,
    local: Id32,
)
    ensures
        record_counts(record, local) <==> record == (PublishedRecord {
            signature_valid: true,
            signer: record.publisher,
            format_version: 1,
            subject: local,
            publisher: record.publisher,
            guild_id: record.guild_id,
            checkpoint_hash: record.checkpoint_hash,
            checkpoint_generation: record.checkpoint_generation,
            expires_at_unix_seconds: u64::MAX,
        }),
        record_counts(record, local) && sealed_counts(record, locator, local) <==> record_counts(
            record,
            local,
        ) && locator == (RecoveryLocator {
            signature_valid: true,
            signer: record.publisher,
            format_version: 1,
            subject: local,
            publisher: record.publisher,
            guild_id: record.guild_id,
            checkpoint_hash: record.checkpoint_hash,
            checkpoint_generation: record.checkpoint_generation,
            expires_at_unix_seconds: u64::MAX,
            endpoints: locator.endpoints,
            subject_endpoint_sequence_floor: locator.subject_endpoint_sequence_floor,
        }),
{
}

/// A reply is taken only from the one who was called, under the number of the
/// call, validly signed, and with what was asked for; each fault has its own
/// error, the first of them that holds.
pub proof fn replies_are_taken_from_the_one_called(
    reply: DirectReply,
    request_id: u128,
    signer: Id32,
    request: DirectRequest,
)
    ensures
        expected_reply(reply, request_id, signer, request) == (if !reply.signature_valid {
            Err::<(), CallError>(CallError::Signature)
        } else if reply.request_id != request_id {
            Err(CallError::WrongRequest)
        } else if reply.answer is None {
            Err(CallError::Refused)
        } else if reply.signer != signer {
            Err(CallError::WrongSigner)
        } else if reply.answer->0 != request.answer() {
            Err(CallError::WrongAnswer)
        } else {
            Ok(())
        }),
        reply_taken(reply, request_id) matches Ok((who, what)) ==> who == reply.signer
            && reply.answer == Some(what) && reply.signature_valid && reply.request_id
            == request_id,
{
}

/// Of the states that were served the one of the latest generation is recovered, and
/// of several of that generation the last; where none was served, none is.
pub proof fn the_latest_served_state_is_recovered(served: Seq<ServedCheckpoint>, k: int)
    requires
        0 <= k < served.len(),
    ensures
        newest_place(Seq::<ServedCheckpoint>::empty()) is None,
        ({
            let place = newest_place(served);
            &&& place is Some
            &&& 0 <= place->0 < served.len()
            &&& served[k].generation <= served[place->0].generation
            &&& k > place->0 ==> served[k].generation < served[place->0].generation
        }),
{
    lemma_some_newest(served);
    let place = newest_place(served);
    assert(is_newest_served(served, place->0));
}

} // verus!
