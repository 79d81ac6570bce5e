//! What peers ask of each other over the network of the guild.

use crate::ids::Id32;
use vstd::prelude::*;

verus! {

/// What a peer asks for, with the guild that it asks about.
#[derive(Clone, Copy, Debug)]
pub enum PeerRequest {
    Profile,
    JoinGuild { guild_id: Id32 },
    ProposeGuildGenesis { guild_id: Id32 },
    InstallGuildGenesis { guild_id: Id32 },
    SubmitBackup { guild_id: Id32 },
    BackupStatus { guild_id: Id32 },
    GetGuildGenesis { guild_id: Id32 },
    GetGuildEventTail { guild_id: Id32 },
    SignGuildEvent { guild_id: Id32 },
    InstallGuildEvent { guild_id: Id32 },
    ExchangeEndpoints { guild_id: Id32 },
    GetPreparedRevisionPage { guild_id: Id32 },
    EnsureFiller { guild_id: Id32 },
    GetSector { guild_id: Id32 },
    GetSectorRange { guild_id: Id32 },
    PublishParity { guild_id: Id32 },
    StageCodingParity { guild_id: Id32 },
    ReserveCodingParity { guild_id: Id32 },
    UploadCodingParityRange { guild_id: Id32 },
    FinalizeCodingParity { guild_id: Id32 },
    DelegateCodingAttempt { guild_id: Id32 },
    CommitCodingChallenge { guild_id: Id32 },
    RevealCodingChallenge { guild_id: Id32 },
    GetCodingOpening { guild_id: Id32 },
    FinalizeCodingVerification { guild_id: Id32 },
    SubmitCodingTranscript { guild_id: Id32 },
    SubmitCodingFailure { guild_id: Id32 },
    ActivateCodingParity { guild_id: Id32 },
    AbortCodingAttempt { guild_id: Id32 },
    GetParity { guild_id: Id32 },
    StoreRepairShard { guild_id: Id32 },
    PutCheckpointPage { guild_id: Id32 },
    SignCheckpoint { guild_id: Id32 },
    FinalizeCheckpoint { guild_id: Id32 },
    GetCheckpointPage { guild_id: Id32 },
}

/// The two objects of a checkpoint.
#[derive(Clone, Copy, Debug, PartialEq, Eq, Structural)]
pub enum CheckpointObjectKind {
    Body,
    Certificate,
}

impl CheckpointObjectKind {
    pub open spec fn text(self) -> Seq<char> {
        match self {
            CheckpointObjectKind::Body => "body"@,
            CheckpointObjectKind::Certificate => "certificate"@,
        }
    }

    /// The name of the object.
    pub fn as_str(self) -> (text: &'static str)
        ensures
            text@ == self.text(),
    {
        match self {
            CheckpointObjectKind::Body => "body",
            CheckpointObjectKind::Certificate => "certificate",
        }
    }
}

impl PeerRequest {
    /// The request changes nothing.
    pub open spec fn reads(self) -> bool {
        match self {
            PeerRequest::Profile
            | PeerRequest::BackupStatus { .. }
            | PeerRequest::GetGuildGenesis { .. }
            | PeerRequest::GetGuildEventTail { .. }
            | PeerRequest::ExchangeEndpoints { .. }
            | PeerRequest::GetPreparedRevisionPage { .. }
            | PeerRequest::GetSector { .. }
            | PeerRequest::GetSectorRange { .. }
            | PeerRequest::GetParity { .. }
            | PeerRequest::GetCheckpointPage { .. } => true,
            _ => false,
        }
    }

    /// The name under which a change is remembered; none for what only reads.
    pub open spec fn kind(self) -> Option<Seq<char>> {
        match self {
            PeerRequest::Profile => None,
            PeerRequest::JoinGuild { .. } => Some("join-guild"@),
            PeerRequest::ProposeGuildGenesis { .. } => Some("propose-guild-genesis"@),
            PeerRequest::InstallGuildGenesis { .. } => Some("install-guild-genesis"@),
            PeerRequest::SubmitBackup { .. } => Some("submit-backup"@),
            PeerRequest::BackupStatus { .. } => None,
            PeerRequest::GetGuildGenesis { .. } => None,
            PeerRequest::GetGuildEventTail { .. } => None,
            PeerRequest::SignGuildEvent { .. } => Some("sign-guild-event"@),
            PeerRequest::InstallGuildEvent { .. } => Some("install-guild-event"@),
            PeerRequest::ExchangeEndpoints { .. } => None,
            PeerRequest::GetPreparedRevisionPage { .. } => None,
            PeerRequest::EnsureFiller { .. } => Some("ensure-filler"@),
            PeerRequest::GetSector { .. } => None,
            PeerRequest::GetSectorRange { .. } => None,
            PeerRequest::PublishParity { .. } => Some("publish-parity"@),
            PeerRequest::StageCodingParity { .. } => Some("stage-coding-parity"@),
            PeerRequest::ReserveCodingParity { .. } => Some("reserve-coding-parity"@),
            PeerRequest::UploadCodingParityRange { .. } => Some("upload-coding-parity-range"@),
            PeerRequest::FinalizeCodingParity { .. } => Some("finalize-coding-parity"@),
            PeerRequest::DelegateCodingAttempt { .. } => Some("delegate-coding-attempt"@),
            PeerRequest::CommitCodingChallenge { .. } => Some("commit-coding-challenge"@),
            PeerRequest::RevealCodingChallenge { .. } => Some("reveal-coding-challenge"@),
            PeerRequest::GetCodingOpening { .. } => Some("get-coding-opening"@),
            PeerRequest::FinalizeCodingVerification { .. } => Some("finalize-coding-verification"@),
            PeerRequest::SubmitCodingTranscript { .. } => Some("submit-coding-transcript"@),
            PeerRequest::SubmitCodingFailure { .. } => Some("submit-coding-failure"@),
            PeerRequest::ActivateCodingParity { .. } => Some("activate-coding-parity"@),
            PeerRequest::AbortCodingAttempt { .. } => Some("abort-coding-attempt"@),
            PeerRequest::GetParity { .. } => None,
            PeerRequest::StoreRepairShard { .. } => Some("store-repair-shard"@),
            PeerRequest::PutCheckpointPage { .. } => Some("put-checkpoint-page"@),
            PeerRequest::SignCheckpoint { .. } => Some("sign-checkpoint"@),
            PeerRequest::FinalizeCheckpoint { .. } => Some("finalize-checkpoint"@),
            PeerRequest::GetCheckpointPage { .. } => None,
        }
    }

    /// The guild that the request is about.
    pub open spec fn scope(self) -> Option<Id32> {
        match self {
            PeerRequest::Profile => None,
            PeerRequest::JoinGuild { guild_id } => Some(guild_id),
            PeerRequest::ProposeGuildGenesis { guild_id } => Some(guild_id),
            PeerRequest::InstallGuildGenesis { guild_id } => Some(guild_id),
            PeerRequest::SubmitBackup { guild_id } => Some(guild_id),
            PeerRequest::BackupStatus { guild_id } => Some(guild_id),
            PeerRequest::GetGuildGenesis { guild_id } => Some(guild_id),
            PeerRequest::GetGuildEventTail { guild_id } => Some(guild_id),
            PeerRequest::SignGuildEvent { guild_id } => Some(guild_id),
            PeerRequest::InstallGuildEvent { guild_id } => Some(guild_id),
            PeerRequest::ExchangeEndpoints { guild_id } => Some(guild_id),
            PeerRequest::GetPreparedRevisionPage { guild_id } => Some(guild_id),
            PeerRequest::EnsureFiller { guild_id } => Some(guild_id),
            PeerRequest::GetSector { guild_id } => Some(guild_id),
            PeerRequest::GetSectorRange { guild_id } => Some(guild_id),
            PeerRequest::PublishParity { guild_id } => Some(guild_id),
            PeerRequest::StageCodingParity { guild_id } => Some(guild_id),
            PeerRequest::ReserveCodingParity { guild_id } => Some(guild_id),
            PeerRequest::UploadCodingParityRange { guild_id } => Some(guild_id),
            PeerRequest::FinalizeCodingParity { guild_id } => Some(guild_id),
            PeerRequest::DelegateCodingAttempt { guild_id } => Some(guild_id),
            PeerRequest::CommitCodingChallenge { guild_id } => Some(guild_id),
            PeerRequest::RevealCodingChallenge { guild_id } => Some(guild_id),
            PeerRequest::GetCodingOpening { guild_id } => Some(guild_id),
            PeerRequest::FinalizeCodingVerification { guild_id } => Some(guild_id),
            PeerRequest::SubmitCodingTranscript { guild_id } => Some(guild_id),
            PeerRequest::SubmitCodingFailure { guild_id } => Some(guild_id),
            PeerRequest::ActivateCodingParity { guild_id } => Some(guild_id),
            PeerRequest::AbortCodingAttempt { guild_id } => Some(guild_id),
            PeerRequest::GetParity { guild_id } => Some(guild_id),
            PeerRequest::StoreRepairShard { guild_id } => Some(guild_id),
            PeerRequest::PutCheckpointPage { guild_id } => Some(guild_id),
            PeerRequest::SignCheckpoint { guild_id } => Some(guild_id),
            PeerRequest::FinalizeCheckpoint { guild_id } => Some(guild_id),
            PeerRequest::GetCheckpointPage { guild_id } => Some(guild_id),
        }
    }

    /// Whether the request changes nothing.
    pub fn is_read_only(&self) -> (result: bool)
        ensures
            result == self.reads(),
    {
        match self {
            PeerRequest::Profile
            | PeerRequest::BackupStatus { .. }
            | PeerRequest::GetGuildGenesis { .. }
            | PeerRequest::GetGuildEventTail { .. }
            | PeerRequest::ExchangeEndpoints { .. }
            | PeerRequest::GetPreparedRevisionPage { .. }
            | PeerRequest::GetSector { .. }
            | PeerRequest::GetSectorRange { .. }
            | PeerRequest::GetParity { .. }
            | PeerRequest::GetCheckpointPage { .. } => true,
            _ => false,
        }
    }

    /// The name under which a change is remembered.
    pub fn mutation_kind(&self) -> (kind: Option<&'static str>)
        ensures
            (match kind {
                Some(kind) => Some(kind@),
                None => None,
            }) == self.kind(),
    {
        match self {
            PeerRequest::Profile => None,
            PeerRequest::JoinGuild { .. } => Some("join-guild"),
            PeerRequest::ProposeGuildGenesis { .. } => Some("propose-guild-genesis"),
            PeerRequest::InstallGuildGenesis { .. } => Some("install-guild-genesis"),
            PeerRequest::SubmitBackup { .. } => Some("submit-backup"),
            PeerRequest::BackupStatus { .. } => None,
            PeerRequest::GetGuildGenesis { .. } => None,
            PeerRequest::GetGuildEventTail { .. } => None,
            PeerRequest::SignGuildEvent { .. } => Some("sign-guild-event"),
            PeerRequest::InstallGuildEvent { .. } => Some("install-guild-event"),
            PeerRequest::ExchangeEndpoints { .. } => None,
            PeerRequest::GetPreparedRevisionPage { .. } => None,
            PeerRequest::EnsureFiller { .. } => Some("ensure-filler"),
            PeerRequest::GetSector { .. } => None,
            PeerRequest::GetSectorRange { .. } => None,
            PeerRequest::PublishParity { .. } => Some("publish-parity"),
            PeerRequest::StageCodingParity { .. } => Some("stage-coding-parity"),
            PeerRequest::ReserveCodingParity { .. } => Some("reserve-coding-parity"),
            PeerRequest::UploadCodingParityRange { .. } => Some("upload-coding-parity-range"),
            PeerRequest::FinalizeCodingParity { .. } => Some("finalize-coding-parity"),
            PeerRequest::DelegateCodingAttempt { .. } => Some("delegate-coding-attempt"),
            PeerRequest::CommitCodingChallenge { .. } => Some("commit-coding-challenge"),
            PeerRequest::RevealCodingChallenge { .. } => Some("reveal-coding-challenge"),
            PeerRequest::GetCodingOpening { .. } => Some("get-coding-opening"),
            PeerRequest::FinalizeCodingVerification { .. } => Some("finalize-coding-verification"),
            PeerRequest::SubmitCodingTranscript { .. } => Some("submit-coding-transcript"),
            PeerRequest::SubmitCodingFailure { .. } => Some("submit-coding-failure"),
            PeerRequest::ActivateCodingParity { .. } => Some("activate-coding-parity"),
            PeerRequest::AbortCodingAttempt { .. } => Some("abort-coding-attempt"),
            PeerRequest::GetParity { .. } => None,
            PeerRequest::StoreRepairShard { .. } => Some("store-repair-shard"),
            PeerRequest::PutCheckpointPage { .. } => Some("put-checkpoint-page"),
            PeerRequest::SignCheckpoint { .. } => Some("sign-checkpoint"),
            PeerRequest::FinalizeCheckpoint { .. } => Some("finalize-checkpoint"),
            PeerRequest::GetCheckpointPage { .. } => None,
        }
    }

    /// The guild that the request is about.
    pub fn guild_scope(&self) -> (scope: Option<Id32>)
        ensures
            scope == self.scope(),
    {
        match self {
            PeerRequest::Profile => None,
            PeerRequest::JoinGuild { guild_id } => Some(*guild_id),
            PeerRequest::ProposeGuildGenesis { guild_id } => Some(*guild_id),
            PeerRequest::InstallGuildGenesis { guild_id } => Some(*guild_id),
            PeerRequest::SubmitBackup { guild_id } => Some(*guild_id),
            PeerRequest::BackupStatus { guild_id } => Some(*guild_id),
            PeerRequest::GetGuildGenesis { guild_id } => Some(*guild_id),
            PeerRequest::GetGuildEventTail { guild_id } => Some(*guild_id),
            PeerRequest::SignGuildEvent { guild_id } => Some(*guild_id),
            PeerRequest::InstallGuildEvent { guild_id } => Some(*guild_id),
            PeerRequest::ExchangeEndpoints { guild_id } => Some(*guild_id),
            PeerRequest::GetPreparedRevisionPage { guild_id } => Some(*guild_id),
            PeerRequest::EnsureFiller { guild_id } => Some(*guild_id),
            PeerRequest::GetSector { guild_id } => Some(*guild_id),
            PeerRequest::GetSectorRange { guild_id } => Some(*guild_id),
            PeerRequest::PublishParity { guild_id } => Some(*guild_id),
            PeerRequest::StageCodingParity { guild_id } => Some(*guild_id),
            PeerRequest::ReserveCodingParity { guild_id } => Some(*guild_id),
            PeerRequest::UploadCodingParityRange { guild_id } => Some(*guild_id),
            PeerRequest::FinalizeCodingParity { guild_id } => Some(*guild_id),
            PeerRequest::DelegateCodingAttempt { guild_id } => Some(*guild_id),
            PeerRequest::CommitCodingChallenge { guild_id } => Some(*guild_id),
            PeerRequest::RevealCodingChallenge { guild_id } => Some(*guild_id),
            PeerRequest::GetCodingOpening { guild_id } => Some(*guild_id),
            PeerRequest::FinalizeCodingVerification { guild_id } => Some(*guild_id),
            PeerRequest::SubmitCodingTranscript { guild_id } => Some(*guild_id),
            PeerRequest::SubmitCodingFailure { guild_id } => Some(*guild_id),
            PeerRequest::ActivateCodingParity { guild_id } => Some(*guild_id),
            PeerRequest::AbortCodingAttempt { guild_id } => Some(*guild_id),
            PeerRequest::GetParity { guild_id } => Some(*guild_id),
            PeerRequest::StoreRepairShard { guild_id } => Some(*guild_id),
            PeerRequest::PutCheckpointPage { guild_id } => Some(*guild_id),
            PeerRequest::SignCheckpoint { guild_id } => Some(*guild_id),
            PeerRequest::FinalizeCheckpoint { guild_id } => Some(*guild_id),
            PeerRequest::GetCheckpointPage { guild_id } => Some(*guild_id),
        }
    }
}

impl PeerRequest {
    /// The recipient that a request names: only a profile may be asked of
    /// whoever answers.
    pub fn recipient(&self, recipient: Id32) -> (named: Option<Id32>)
        ensures
            named == (if self is Profile {
                None
            } else {
                Some(recipient)
            }),
    {
        match self {
            PeerRequest::Profile => None,
            _ => Some(recipient),
        }
    }
}

/// A request changes nothing if and only if nothing of it is remembered, and
/// every change is about a guild.
pub proof fn changes_are_remembered_and_scoped(request: PeerRequest)
    ensures
        request.reads() == (request.kind() is None),
        request.kind() is Some ==> request.scope() is Some,
{
}

/// What a response holds.
#[derive(Clone, Copy, Debug, PartialEq, Eq, Structural)]
pub enum ResponseKind {
    Ack,
    Profile,
    EndpointRecords,
    GuildGenesisSignature,
    BackupJob,
    PreparedRevisionPage,
    Bytes,
    GuildGenesis,
    CheckpointPage,
    Filler,
    StorageAcknowledgement,
    CheckpointSignature,
    Other,
}

impl PeerRequest {
    /// What the response to a request must hold; no answer for requests that
    /// a client of the node does not make.
    pub open spec fn response(self) -> Option<ResponseKind> {
        match self {
            PeerRequest::Profile => Some(ResponseKind::Profile),
            PeerRequest::JoinGuild { .. } => Some(ResponseKind::Ack),
            PeerRequest::ProposeGuildGenesis { .. } => Some(ResponseKind::GuildGenesisSignature),
            PeerRequest::InstallGuildGenesis { .. } => Some(ResponseKind::Ack),
            PeerRequest::SubmitBackup { .. } => Some(ResponseKind::BackupJob),
            PeerRequest::BackupStatus { .. } => Some(ResponseKind::BackupJob),
            PeerRequest::GetGuildGenesis { .. } => Some(ResponseKind::GuildGenesis),
            PeerRequest::ExchangeEndpoints { .. } => Some(ResponseKind::EndpointRecords),
            PeerRequest::GetPreparedRevisionPage { .. } => Some(ResponseKind::PreparedRevisionPage),
            PeerRequest::EnsureFiller { .. } => Some(ResponseKind::Filler),
            PeerRequest::GetSector { .. } => Some(ResponseKind::Bytes),
            PeerRequest::GetParity { .. } => Some(ResponseKind::Bytes),
            PeerRequest::PublishParity { .. } => Some(ResponseKind::StorageAcknowledgement),
            PeerRequest::PutCheckpointPage { .. } => Some(ResponseKind::Ack),
            PeerRequest::SignCheckpoint { .. } => Some(ResponseKind::CheckpointSignature),
            PeerRequest::FinalizeCheckpoint { .. } => Some(ResponseKind::Ack),
            PeerRequest::GetCheckpointPage { .. } => Some(ResponseKind::CheckpointPage),
            _ => None,
        }
    }

    /// Whether a response is one to this request.
    pub fn accepts(&self, kind: ResponseKind) -> (accepted: bool)
        ensures
            accepted == (self.response() == Some(kind)),
    {
        let expected = match self {
            PeerRequest::Profile => Some(ResponseKind::Profile),
            PeerRequest::JoinGuild { .. } => Some(ResponseKind::Ack),
            PeerRequest::ProposeGuildGenesis { .. } => Some(ResponseKind::GuildGenesisSignature),
            PeerRequest::InstallGuildGenesis { .. } => Some(ResponseKind::Ack),
            PeerRequest::SubmitBackup { .. } => Some(ResponseKind::BackupJob),
            PeerRequest::BackupStatus { .. } => Some(ResponseKind::BackupJob),
            PeerRequest::GetGuildGenesis { .. } => Some(ResponseKind::GuildGenesis),
            PeerRequest::ExchangeEndpoints { .. } => Some(ResponseKind::EndpointRecords),
            PeerRequest::GetPreparedRevisionPage { .. } => Some(ResponseKind::PreparedRevisionPage),
            PeerRequest::EnsureFiller { .. } => Some(ResponseKind::Filler),
            PeerRequest::GetSector { .. } => Some(ResponseKind::Bytes),
            PeerRequest::GetParity { .. } => Some(ResponseKind::Bytes),
            PeerRequest::PublishParity { .. } => Some(ResponseKind::StorageAcknowledgement),
            PeerRequest::PutCheckpointPage { .. } => Some(ResponseKind::Ack),
            PeerRequest::SignCheckpoint { .. } => Some(ResponseKind::CheckpointSignature),
            PeerRequest::FinalizeCheckpoint { .. } => Some(ResponseKind::Ack),
            PeerRequest::GetCheckpointPage { .. } => Some(ResponseKind::CheckpointPage),
            _ => None,
        };
        match expected {
            Some(expected) => expected == kind,
            None => false,
        }
    }
}

/// Every change has a name of its own, and what only reads has none.
pub proof fn changes_have_their_own_names(request: PeerRequest)
    ensures
        request is JoinGuild ==> request.kind() == Some("join-guild"@),
        request is ProposeGuildGenesis ==> request.kind() == Some("propose-guild-genesis"@),
        request is InstallGuildGenesis ==> request.kind() == Some("install-guild-genesis"@),
        request is SubmitBackup ==> request.kind() == Some("submit-backup"@),
        request is SignGuildEvent ==> request.kind() == Some("sign-guild-event"@),
        request is InstallGuildEvent ==> request.kind() == Some("install-guild-event"@),
        request is EnsureFiller ==> request.kind() == Some("ensure-filler"@),
        request is PublishParity ==> request.kind() == Some("publish-parity"@),
        request is StageCodingParity ==> request.kind() == Some("stage-coding-parity"@),
        request is ReserveCodingParity ==> request.kind() == Some("reserve-coding-parity"@),
        request is UploadCodingParityRange ==> request.kind() == Some(
            "upload-coding-parity-range"@,
        ),
        request is FinalizeCodingParity ==> request.kind() == Some("finalize-coding-parity"@),
        request is DelegateCodingAttempt ==> request.kind() == Some("delegate-coding-attempt"@),
        request is CommitCodingChallenge ==> request.kind() == Some("commit-coding-challenge"@),
        request is RevealCodingChallenge ==> request.kind() == Some("reveal-coding-challenge"@),
        request is GetCodingOpening ==> request.kind() == Some("get-coding-opening"@),
        request is FinalizeCodingVerification ==> request.kind() == Some(
            "finalize-coding-verification"@,
        ),
        request is SubmitCodingTranscript ==> request.kind() == Some("submit-coding-transcript"@),
        request is SubmitCodingFailure ==> request.kind() == Some("submit-coding-failure"@),
        request is ActivateCodingParity ==> request.kind() == Some("activate-coding-parity"@),
        request is AbortCodingAttempt ==> request.kind() == Some("abort-coding-attempt"@),
        request is StoreRepairShard ==> request.kind() == Some("store-repair-shard"@),
        request is PutCheckpointPage ==> request.kind() == Some("put-checkpoint-page"@),
        request is SignCheckpoint ==> request.kind() == Some("sign-checkpoint"@),
        request is FinalizeCheckpoint ==> request.kind() == Some("finalize-checkpoint"@),
        request.kind() is None <==> request is Profile || request is BackupStatus
            || request is GetGuildGenesis || request is GetGuildEventTail
            || request is ExchangeEndpoints || request is GetPreparedRevisionPage
            || request is GetSector || request is GetSectorRange || request is GetParity
            || request is GetCheckpointPage,
        request.scope() is None <==> request is Profile,
{
}

/// A response holds what was asked for: what is read comes back as it is kept, what
/// is signed as a signature, what is stored as an acknowledgement of its keeping, and
/// a plain acknowledgement answers what leaves nothing to tell.
pub proof fn responses_hold_what_was_asked_for(request: PeerRequest)
    ensures
        request.response() == Some(ResponseKind::Profile) <==> request is Profile,
        request.response() == Some(ResponseKind::Ack) <==> request is JoinGuild
            || request is InstallGuildGenesis || request is PutCheckpointPage
            || request is FinalizeCheckpoint,
        request.response() == Some(ResponseKind::GuildGenesisSignature)
            <==> request is ProposeGuildGenesis,
        request.response() == Some(ResponseKind::BackupJob) <==> request is SubmitBackup
            || request is BackupStatus,
        request.response() == Some(ResponseKind::GuildGenesis) <==> request is GetGuildGenesis,
        request.response() == Some(ResponseKind::EndpointRecords)
            <==> request is ExchangeEndpoints,
        request.response() == Some(ResponseKind::PreparedRevisionPage)
            <==> request is GetPreparedRevisionPage,
        request.response() == Some(ResponseKind::Filler) <==> request is EnsureFiller,
        request.response() == Some(ResponseKind::Bytes) <==> request is GetSector
            || request is GetParity,
        request.response() == Some(ResponseKind::StorageAcknowledgement)
            <==> request is PublishParity,
        request.response() == Some(ResponseKind::CheckpointSignature)
            <==> request is SignCheckpoint,
        request.response() == Some(ResponseKind::CheckpointPage) <==> request is GetCheckpointPage,
        request.response() != Some(ResponseKind::Other),
{
}

} // verus!
