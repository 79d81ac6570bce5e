//! What the long operations of a node do, step by step.

use mb_node::address::PeerId;
use mb_node::backup_job::{
    commit_backup_job, CodingLimits, CommitAction, CommitEvent, CommitStart, GuildCertificate,
    GuildPeer, JobCommit, PreviousState, StateKey,
};
use mb_node::coding::{CodingAction, CodingError, CodingEvent};
use mb_node::commit::{
    BackupJob, CommitError, PreparedRevision, SectorRef, StorageAcknowledgement,
};
use mb_node::dht::{SequenceError, SignedEndpoints};
use mb_node::dht_recovery::{
    recover_from_dht_once, BundleAnswer, CandidateDetails, EndpointSet, FoundCandidate,
    KeptCandidate, RecoveryAction, RecoveryAttempt, RecoveryEvent, RecoveryFailure,
    RecoveryPending,
};
use mb_node::direct::PublishedRecord;
use mb_node::head_check::{CheckAction, CheckEvent, ServedAnswer};
use mb_node::hashing::{endpoint_record_key, recovery_bundle_key, recovery_mailbox_key};
use mb_node::ids::Id32;
use mb_node::local_shards::{
    recover_local_shards_with, DirectFetch, DirectStep, ShardAction, ShardError, ShardEvent,
};
use mb_node::network_commit::{commit_source_over_network, NetworkAction, NetworkCommit, NetworkEvent};
use mb_node::network_recovery::{
    recover_over_network, DirectoryFind, NetworkRecoveryAction, NetworkRecoveryError,
    NetworkRecoveryEvent, ServedFacts,
};
use mb_node::publication::ProviderAnswer;
use mb_node::publishing::{
    publish_dht_once, BuiltBundle, BuiltRecords, KeptRecord, PublishAction, PublishError, PublishEvent,
    PublishPass,
};
use mb_node::recovery::{
    RecoveryCandidate, RecoveryHead, RecoveryLocator, RevisionFacts, ServedState,
};
use mb_node::shards::{reconstruct_shard_from_peers, FetchStep, GroupRoles, ShardRole};
use mb_node::snapshot::{
    restore_snapshot_with_p2p, SnapshotAction, SnapshotError, SnapshotEvent,
};
use mb_node::table::KeySet;

fn id(byte: u8) -> Id32 {
    Id32([byte; 32])
}

fn sector(byte: u8) -> SectorRef {
    SectorRef { id: id(byte), root: id(byte + 100) }
}

fn job() -> BackupJob {
    BackupJob { guild_id: id(50), owner: id(3), revision_id: 7 }
}

fn certificate() -> GuildCertificate {
    GuildCertificate { valid: true, guild_id: id(50), coordinator: id(1) }
}

fn members(nodes: &[u8]) -> Vec<GuildPeer> {
    nodes
        .iter()
        .map(|node| GuildPeer {
            node: id(*node),
            endpoints: vec![format!("/ip4/198.51.100.{node}/udp/4001/quic-v1")],
        })
        .collect()
}

fn limits() -> CodingLimits {
    CodingLimits { max_coding_groups: 4, sector_size: 1024 }
}

fn started(previous: Option<PreviousState>) -> JobCommit {
    match commit_backup_job(
        &certificate(),
        id(1),
        &members(&[5, 3, 1, 4, 2]),
        previous,
        job(),
        limits(),
    ) {
        Ok(CommitStart::Started(commit)) => commit,
        other => panic!("{other:?}"),
    }
}

fn revision() -> PreparedRevision {
    PreparedRevision {
        signature_valid: true,
        signer: id(3),
        owner: id(3),
        guild_id: id(50),
        revision_id: 7,
        sectors: 0,
    }
}

fn prepared(commit: &mut JobCommit, sectors: Vec<SectorRef>) {
    while let CommitAction::AddAddress { .. } = commit.next() {
        commit.take(CommitEvent::Added);
    }
    assert!(matches!(
        commit.next(),
        CommitAction::FetchRevision(job) if job.owner == id(3) && job.revision_id == 7
    ));
    commit.take(CommitEvent::Revision { revision: revision(), sequence: 2, sectors });
}

fn acknowledged(holder: Id32, group: Id32, shard_index: u8, root: Id32) -> StorageAcknowledgement {
    StorageAcknowledgement {
        signature_valid: true,
        signer: holder,
        holder,
        operation_id: 9,
        guild_id: id(50),
        group_id: group,
        shard_index,
        root,
    }
}

/// Answers what the coding of a sector asks for.
fn coding_answer(action: &CodingAction, in_guild: bool) -> CodingEvent {
    match action {
        CodingAction::LoadSector { sector, .. } => {
            CodingEvent::Sector { length: 1024, root: sector.root }
        }
        CodingAction::EnsureFiller { revision, ordinal, .. } => {
            assert_eq!((revision.guild_id, revision.revision_id), (id(50), 7));
            let reference = sector(60 + *ordinal as u8);
            CodingEvent::Filler { reference, length: 1024, root: reference.root }
        }
        CodingAction::Encode => CodingEvent::Encoded { parity: (id(70), id(71)) },
        CodingAction::Identify { guild_id, shard_size, roles } => {
            assert_eq!((*guild_id, *shard_size, roles.len()), (id(50), 1024, 5));
            CodingEvent::Identified(match roles[0] {
                ShardRole::Information { sector_id, .. } => sector_id,
                ShardRole::Parity { .. } => panic!("the owner holds a sector"),
            })
        }
        CodingAction::PublishParity { holder, group, shard_index, root, .. } if in_guild => {
            CodingEvent::Acknowledged {
                operation_id: 9,
                acknowledgement: acknowledged(*holder, *group, *shard_index, *root),
            }
        }
        CodingAction::PublishParity { .. } => CodingEvent::Stored,
        CodingAction::Done | CodingAction::Failed(_) => panic!("{action:?}"),
    }
}

fn coded(commit: &mut JobCommit) -> Vec<String> {
    let mut asked = Vec::new();
    while let CommitAction::Code(action) = commit.next() {
        asked.push(match &action {
            CodingAction::LoadSector { owner, .. } => format!("sector of {}", owner.0[0]),
            CodingAction::EnsureFiller { helper, ordinal, .. } => {
                format!("filler {ordinal} of {}", helper.0[0])
            }
            CodingAction::Encode => "parity".to_owned(),
            CodingAction::Identify { .. } => "group".to_owned(),
            CodingAction::PublishParity { holder, shard_index, .. } => {
                format!("shard {shard_index} to {}", holder.0[0])
            }
            CodingAction::Done | CodingAction::Failed(_) => panic!("{action:?}"),
        });
        commit.take(CommitEvent::Coding(coding_answer(&action, true)));
    }
    asked
}

fn commit_failure(commit: &JobCommit) -> CommitError {
    match commit.next() {
        CommitAction::Failed(error) => error,
        other => panic!("{other:?}"),
    }
}

#[test]
fn a_backup_job_is_committed_in_order() {
    let mut commit = started(Some(PreviousState {
        valid: true,
        generation: 4,
        hash: id(90),
        revisions: vec![RevisionFacts { owner: id(4), sequence: 1, revision_id: 1 }],
        groups: vec![id(11)],
    }));
    let mut dialed = Vec::new();
    while let CommitAction::AddAddress { peer, .. } = commit.next() {
        dialed.push(peer.0[0]);
        commit.take(CommitEvent::Added);
    }
    assert_eq!(dialed, vec![3, 2, 4, 5]);
    prepared(&mut commit, vec![sector(12), sector(10)]);
    assert_eq!(
        coded(&mut commit),
        vec![
            "sector of 3", "filler 0 of 1", "filler 1 of 2", "parity", "group", "shard 3 to 4",
            "shard 4 to 5", "sector of 3", "filler 2 of 1", "filler 3 of 2", "parity", "group",
            "shard 3 to 4", "shard 4 to 5",
        ]
    );
    match commit.next() {
        CommitAction::Build { guild_id, generation, parent, revisions, groups } => {
            assert_eq!(guild_id, id(50));
            assert_eq!(generation, 5);
            assert_eq!(parent, Some(id(90)));
            let owners: Vec<u8> = revisions.iter().map(|revision| revision.owner.0[0]).collect();
            assert_eq!(owners, vec![3, 4]);
            let places: Vec<(u8, usize)> =
                groups.iter().map(|group| (group.node.0[0], group.place)).collect();
            assert_eq!(places, vec![(10, 2), (11, 0), (12, 1)]);
        }
        other => panic!("{other:?}"),
    }
    commit.take(CommitEvent::Built(id(91)));
    let made = StateKey { guild_id: id(50), hash: id(91) };
    assert!(matches!(commit.next(), CommitAction::PublishBody(state) if state == made));
    commit.take(CommitEvent::Published);
    let mut signers = Vec::new();
    while let CommitAction::Sign { signer, local, state } = commit.next() {
        assert_eq!(state, made);
        signers.push((signer.0[0], local));
        commit.take(CommitEvent::Signed(signer));
    }
    assert_eq!(signers, vec![(3, false), (1, true), (2, false), (4, false), (5, false)]);
    match commit.next() {
        CommitAction::Assemble { signatures } => {
            let places: Vec<usize> = signatures.iter().map(|entry| entry.place).collect();
            assert_eq!(places, vec![1, 2, 0, 3, 4]);
        }
        other => panic!("{other:?}"),
    }
    commit.take(CommitEvent::Assembled);
    assert!(matches!(commit.next(), CommitAction::PublishCertificate(state) if state == made));
    commit.take(CommitEvent::Published);
    let mut finalized = Vec::new();
    while let CommitAction::Finalize { peer, state } = commit.next() {
        assert_eq!(state, made);
        finalized.push(peer.0[0]);
        commit.take(CommitEvent::Finalized);
    }
    assert_eq!(finalized, vec![3, 2, 4, 5]);
    assert!(matches!(commit.next(), CommitAction::FinalizeLocal(state) if state == made));
    commit.take(CommitEvent::Finalized);
    assert!(matches!(commit.next(), CommitAction::Done(hash) if hash == id(91)));
    commit.take(CommitEvent::Failed);
    assert!(matches!(commit.next(), CommitAction::Done(_)));
}

#[test]
fn a_backup_job_is_refused_before_anything_is_asked() {
    let begin = |certificate: GuildCertificate, nodes: &[u8], job: BackupJob| {
        commit_backup_job(&certificate, id(1), &members(nodes), None, job, limits()).err()
    };
    let all: &[u8] = &[1, 2, 3, 4, 5];
    assert_eq!(
        begin(GuildCertificate { valid: false, ..certificate() }, all, job()),
        Some(CommitError::InvalidCertificate)
    );
    assert_eq!(
        begin(GuildCertificate { coordinator: id(2), ..certificate() }, all, job()),
        Some(CommitError::WrongCoordinator)
    );
    assert_eq!(
        begin(GuildCertificate { guild_id: id(51), ..certificate() }, all, job()),
        Some(CommitError::WrongCoordinator)
    );
    assert_eq!(
        begin(certificate(), &[2, 3, 4, 5, 6], BackupJob { owner: id(1), ..job() }),
        Some(CommitError::WrongCoordinator)
    );
    assert_eq!(begin(certificate(), &[1, 2, 4, 5], job()), Some(CommitError::OwnerNotMember));
    assert_eq!(begin(certificate(), &[1, 2, 3, 4], job()), Some(CommitError::NotFivePeers));
    let held = PreviousState {
        valid: true,
        generation: 1,
        hash: id(90),
        revisions: vec![RevisionFacts { owner: id(3), sequence: 1, revision_id: 7 }],
        groups: vec![],
    };
    assert!(matches!(
        commit_backup_job(&certificate(), id(1), &members(all), Some(held), job(), limits()),
        Ok(CommitStart::Already(hash)) if hash == id(90)
    ));
}

#[test]
fn a_backup_job_fails_for_what_it_is_given() {
    let mut peers = members(&[1, 2, 3, 4, 5]);
    peers[4].endpoints = vec!["nowhere".to_owned()];
    let mut commit = match commit_backup_job(&certificate(), id(1), &peers, None, job(), limits()) {
        Ok(CommitStart::Started(commit)) => commit,
        other => panic!("{other:?}"),
    };
    for _ in 0..3 {
        assert!(matches!(commit.next(), CommitAction::AddAddress { .. }));
        commit.take(CommitEvent::Added);
    }
    assert_eq!(commit_failure(&commit), CommitError::InvalidEndpoint);

    let mut commit = started(None);
    prepared(&mut commit, vec![]);
    assert_eq!(commit_failure(&commit), CommitError::SectorCount);
    let mut commit = started(None);
    prepared(&mut commit, (0..5).map(sector).collect());
    assert_eq!(commit_failure(&commit), CommitError::SectorCount);

    let mut commit = started(None);
    for _ in 0..4 {
        commit.take(CommitEvent::Added);
    }
    commit.take(CommitEvent::Revision {
        revision: PreparedRevision { revision_id: 8, ..revision() },
        sequence: 1,
        sectors: vec![sector(1)],
    });
    assert_eq!(commit_failure(&commit), CommitError::WrongRevision);

    let mut commit = started(None);
    prepared(&mut commit, vec![sector(1)]);
    commit.take(CommitEvent::Coding(CodingEvent::Sector { length: 1023, root: id(101) }));
    assert_eq!(commit_failure(&commit), CommitError::Coding(CodingError::WrongSector));
    let mut commit = started(None);
    prepared(&mut commit, vec![sector(1)]);
    commit.take(CommitEvent::Coding(CodingEvent::Failed));
    assert_eq!(commit_failure(&commit), CommitError::Coding(CodingError::Outside));
    let mut commit = started(None);
    prepared(&mut commit, vec![sector(1)]);
    commit.take(CommitEvent::Coding(CodingEvent::Stored));
    assert_eq!(commit_failure(&commit), CommitError::Coding(CodingError::OutOfOrder));

    let mut commit = started(None);
    prepared(&mut commit, vec![sector(1)]);
    loop {
        match commit.next() {
            CommitAction::Code(CodingAction::PublishParity {
                holder,
                group,
                shard_index,
                root,
                ..
            }) => {
                assert_eq!(shard_index, 3);
                let acknowledgement = acknowledged(holder, group, 4, root);
                let event = CodingEvent::Acknowledged { operation_id: 9, acknowledgement };
                commit.take(CommitEvent::Coding(event));
                break;
            }
            CommitAction::Code(action) => {
                commit.take(CommitEvent::Coding(coding_answer(&action, true)));
            }
            other => panic!("{other:?}"),
        }
    }
    assert_eq!(commit_failure(&commit), CommitError::Coding(CodingError::WrongAcknowledgement));

    let mut commit = started(Some(PreviousState {
        valid: false,
        generation: 1,
        hash: id(90),
        revisions: vec![],
        groups: vec![],
    }));
    prepared(&mut commit, vec![sector(1)]);
    coded(&mut commit);
    assert_eq!(commit_failure(&commit), CommitError::InvalidPrevious);
    let mut commit = started(Some(PreviousState {
        valid: true,
        generation: u64::MAX,
        hash: id(90),
        revisions: vec![],
        groups: vec![],
    }));
    prepared(&mut commit, vec![sector(1)]);
    coded(&mut commit);
    assert_eq!(commit_failure(&commit), CommitError::GenerationExhausted);

    let mut commit = started(None);
    commit.take(CommitEvent::Failed);
    assert_eq!(commit_failure(&commit), CommitError::Outside);
    let mut commit = started(None);
    commit.take(CommitEvent::Assembled);
    assert_eq!(commit_failure(&commit), CommitError::OutOfOrder);
}

fn profile(commit: &mut NetworkCommit, node: u8) {
    commit.take(NetworkEvent::Profile {
        signer: id(node),
        node: id(node),
        failure_domain: format!("rack {node}"),
    });
}

fn network_failure(commit: &NetworkCommit) -> CommitError {
    match commit.next() {
        NetworkAction::Failed(error) => error,
        other => panic!("{other:?}"),
    }
}

#[test]
fn a_source_is_committed_over_direct_connections() {
    let mut commit = commit_source_over_network(id(3), id(50), 5, 1024).unwrap();
    for (place, node) in [4_u8, 2, 3, 5, 1].into_iter().enumerate() {
        assert!(
            matches!(commit.next(), NetworkAction::AskProfile { endpoint } if endpoint == place)
        );
        profile(&mut commit, node);
    }
    assert!(matches!(
        commit.next(),
        NetworkAction::Prepare { owner, guild_id, sequence: 1 }
            if owner == id(3) && guild_id == id(50)
    ));
    commit.take(NetworkEvent::Prepared {
        signature_valid: true,
        owner: id(3),
        revision_id: 7,
        sectors: vec![sector(20), sector(10)],
    });
    while let NetworkAction::Code(action) = commit.next() {
        commit.take(NetworkEvent::Coding(coding_answer(&action, false)));
    }
    match commit.next() {
        NetworkAction::Build { guild_id, generation, groups, members } => {
            assert_eq!((guild_id, generation), (id(50), 1));
            let groups: Vec<usize> = groups.iter().map(|group| group.place).collect();
            assert_eq!(groups, vec![1, 0]);
            let members: Vec<u8> = members.iter().map(|member| member.node.0[0]).collect();
            assert_eq!(members, vec![1, 2, 3, 4, 5]);
        }
        other => panic!("{other:?}"),
    }
    commit.take(NetworkEvent::Built);
    let mut signers = Vec::new();
    while let NetworkAction::Sign { signer } = commit.next() {
        signers.push(signer.0[0]);
        commit.take(NetworkEvent::Signed(signer));
    }
    assert_eq!(signers, vec![3, 1, 2, 4, 5]);
    assert!(matches!(commit.next(), NetworkAction::Assemble { .. }));
    commit.take(NetworkEvent::Assembled(id(91)));
    let mut keepers = Vec::new();
    while let NetworkAction::Store { peer } = commit.next() {
        keepers.push(peer.0[0]);
        commit.take(NetworkEvent::Stored);
    }
    assert_eq!(keepers, vec![3, 1, 2, 4, 5]);
    let mut records = Vec::new();
    while let NetworkAction::BuildRecord { peer, request } = commit.next() {
        assert_eq!(request.checkpoint_hash, id(91));
        assert_eq!((request.guild_id, request.checkpoint_generation), (id(50), 1));
        assert_eq!(request.expires_at_unix_seconds, u64::MAX);
        records.push((request.subject.0[0], peer.0[0]));
        commit.take(NetworkEvent::Record);
        assert!(matches!(commit.next(), NetworkAction::PublishRecord));
        commit.take(NetworkEvent::Published);
    }
    assert_eq!(records.len(), 20);
    assert_eq!(records[..4], [(1, 3), (1, 2), (1, 4), (1, 5)]);
    assert!(records.iter().all(|(subject, peer)| subject != peer));
    for subject in 1..=5 {
        for peer in (1..=5).filter(|peer| *peer != subject) {
            let count = records.iter().filter(|record| **record == (subject, peer)).count();
            assert_eq!(count, 1, "{subject} {peer}");
        }
    }
    assert!(matches!(
        commit.next(),
        NetworkAction::Done { guild_id, hash, owner, coding_groups: 2 }
            if guild_id == id(50) && hash == id(91) && owner == id(3)
    ));
}

#[test]
fn a_source_is_not_committed_over_a_poor_network() {
    assert_eq!(
        commit_source_over_network(id(3), id(50), 4, 1024).err(),
        Some(CommitError::NotFivePeers)
    );
    let begin = || commit_source_over_network(id(3), id(50), 5, 1024).unwrap();
    let mut commit = begin();
    commit.take(NetworkEvent::Profile {
        signer: id(1),
        node: id(2),
        failure_domain: "rack".to_owned(),
    });
    assert_eq!(network_failure(&commit), CommitError::WrongProfile);
    let mut commit = begin();
    for node in [1, 2, 3, 4, 4] {
        profile(&mut commit, node);
    }
    assert_eq!(network_failure(&commit), CommitError::DuplicatePeers);
    let mut commit = begin();
    for node in [1, 2, 4, 5, 6] {
        profile(&mut commit, node);
    }
    assert_eq!(network_failure(&commit), CommitError::OwnerNotMember);
    let mut commit = begin();
    for node in [1, 2, 3, 4, 5] {
        profile(&mut commit, node);
    }
    commit.take(NetworkEvent::Prepared {
        signature_valid: true,
        owner: id(1),
        revision_id: 7,
        sectors: vec![],
    });
    assert_eq!(network_failure(&commit), CommitError::WrongRevision);
    let mut commit = begin();
    commit.take(NetworkEvent::Failed);
    assert_eq!(network_failure(&commit), CommitError::Outside);
    let filler = |length, root| CodingEvent::Filler { reference: sector(60), length, root };
    for (answer, fits) in [
        (filler(1024, id(160)), true),
        (filler(1023, id(160)), false),
        (filler(1024, id(161)), false),
    ] {
        let mut commit = begin();
        for node in [1, 2, 3, 4, 5] {
            profile(&mut commit, node);
        }
        let sectors = vec![sector(1)];
        commit.take(NetworkEvent::Prepared {
            signature_valid: true,
            owner: id(3),
            revision_id: 7,
            sectors,
        });
        commit.take(NetworkEvent::Coding(CodingEvent::Sector { length: 1, root: id(101) }));
        commit.take(NetworkEvent::Coding(answer));
        if fits {
            assert!(matches!(
                commit.next(),
                NetworkAction::Code(CodingAction::EnsureFiller { ordinal: 1, .. })
            ));
        } else {
            assert_eq!(network_failure(&commit), CommitError::Coding(CodingError::WrongFiller));
        }
    }
}

fn endpoints_record(sequence: u64, bytes: u8) -> Option<SignedEndpoints> {
    Some(SignedEndpoints {
        signature_valid: true,
        signer: id(1),
        format_version: 1,
        publisher: id(1),
        sequence,
        expires_at_unix_seconds: 1,
        endpoints: vec![],
        bytes: vec![bytes],
    })
}

fn pass(reachable: bool, now: u64) -> PublishPass {
    let endpoints = if reachable { vec!["/onion3/a:443".to_owned()] } else { vec![] };
    publish_dht_once(id(1), "local".to_owned(), &endpoints, now)
}

fn confirm(pass: &mut PublishPass) -> (Vec<usize>, Vec<(Id32, u64)>) {
    assert!(matches!(
        pass.next(),
        PublishAction::FindProviders { key } if key == recovery_mailbox_key(&id(1))
    ));
    pass.take(PublishEvent::Providers(vec![
        "a".to_owned(),
        "local".to_owned(),
        "b".to_owned(),
        "c".to_owned(),
    ]));
    let mut asked = Vec::new();
    while let PublishAction::FindBundle { provider, key } = pass.next() {
        assert_eq!(key, recovery_bundle_key(&id(1), &provider));
        pass.take(PublishEvent::Answer(match provider.as_str() {
            "a" => ProviderAnswer::Fit { publisher: id(2), expires_at_unix_seconds: 20 },
            "b" => ProviderAnswer::Conflicting,
            _ => ProviderAnswer::Nothing,
        }));
        asked.push(provider);
    }
    assert_eq!(asked, vec!["a", "b", "c"]);
    assert!(matches!(pass.next(), PublishAction::ReadKept));
    let kept = |provider: &str, publisher: u8, fit: bool| KeptRecord {
        provider: provider.to_owned(),
        publisher: id(publisher),
        expires_at_unix_seconds: 30,
        fit,
    };
    pass.take(PublishEvent::Kept(vec![
        kept("b", 3, true),
        kept("c", 2, true),
        kept("c", 4, true),
        kept("d", 4, true),
        kept("e", 5, false),
    ]));
    match pass.next() {
        PublishAction::Update { state, certified, confirmations } => {
            assert_eq!(state, id(91));
            pass.take(PublishEvent::Updated);
            assert!(matches!(pass.next(), PublishAction::Done));
            (certified, confirmations)
        }
        other => panic!("{other:?}"),
    }
}

#[test]
fn a_node_publishes_what_the_network_does_not_know_yet() {
    let mut pass = pass(true, 100);
    assert!(matches!(pass.next(), PublishAction::ReadProbeSubjects));
    pass.take(PublishEvent::Subjects(vec![id(8), id(9)]));
    assert!(matches!(
        pass.next(),
        PublishAction::FindOwnEndpoints { key } if key == endpoint_record_key("local")
    ));
    pass.take(PublishEvent::OwnEndpoints(vec![endpoints_record(4, 1), endpoints_record(2, 2)]));
    assert!(matches!(
        pass.next(),
        PublishAction::FindOwnBundle { subject, key }
            if subject == id(8) && key == recovery_bundle_key(&id(8), "local")
    ));
    pass.take(PublishEvent::OwnBundle(vec![]));
    pass.take(PublishEvent::OwnBundle(vec![]));
    match pass.next() {
        PublishAction::Build { expires_at_unix_seconds, endpoint_floor, recovery_floors } => {
            assert!(expires_at_unix_seconds > 100);
            assert_eq!(endpoint_floor, 5);
            assert_eq!(recovery_floors, vec![(id(8), 1), (id(9), 1)]);
        }
        other => panic!("{other:?}"),
    }
    pass.take(PublishEvent::Built(Some(BuiltRecords {
        endpoint: vec![1, 2],
        bundles: vec![BuiltBundle { subject: id(8), record: vec![3, 4, 5] }],
        state: id(91),
    })));
    match pass.next() {
        PublishAction::PutEndpoint { key, record } => {
            assert_eq!(key, endpoint_record_key("local"));
            assert_eq!(record, vec![1, 2]);
        }
        other => panic!("{other:?}"),
    }
    pass.take(PublishEvent::Put);
    match pass.next() {
        PublishAction::PutBundle { subject, key, record } => {
            assert_eq!(subject, id(8));
            assert_eq!(key, recovery_bundle_key(&id(8), "local"));
            assert_eq!(record, vec![3, 4, 5]);
        }
        other => panic!("{other:?}"),
    }
    pass.take(PublishEvent::Put);
    assert!(matches!(
        pass.next(),
        PublishAction::Provide { subject, key }
            if subject == id(8) && key == recovery_mailbox_key(&id(8))
    ));
    pass.take(PublishEvent::Provided);
    assert_eq!(confirm(&mut pass), (vec![0], vec![(id(2), 20), (id(4), 30)]));
}

#[test]
fn an_unreachable_node_only_learns() {
    let mut silent = pass(false, 100);
    assert!(matches!(silent.next(), PublishAction::ReadReadiness));
    silent.take(PublishEvent::Readiness(Some(id(91))));
    assert_eq!(confirm(&mut silent), (vec![0], vec![(id(2), 20), (id(4), 30)]));
    let mut silent = pass(false, 100);
    silent.take(PublishEvent::Readiness(None));
    assert!(matches!(silent.next(), PublishAction::Done));
}

#[test]
fn a_pass_of_publication_fails() {
    let failure = |pass: &PublishPass| match pass.next() {
        PublishAction::Failed(error) => error,
        other => panic!("{other:?}"),
    };
    assert_eq!(failure(&pass(true, u64::MAX)), PublishError::ExpiryOverflow);
    let own = |records: Vec<Option<SignedEndpoints>>| {
        let mut pass = pass(true, 100);
        pass.take(PublishEvent::Subjects(vec![id(8)]));
        pass.take(PublishEvent::OwnEndpoints(records));
        failure(&pass)
    };
    assert_eq!(
        own(vec![endpoints_record(4, 1), endpoints_record(4, 2)]),
        PublishError::Sequence(SequenceError::Forked)
    );
    assert_eq!(
        own(vec![endpoints_record(u64::MAX, 1)]),
        PublishError::Sequence(SequenceError::Exhausted)
    );
    let mut broken = pass(true, 100);
    broken.take(PublishEvent::Failed);
    assert_eq!(failure(&broken), PublishError::Outside);
    let mut broken = pass(true, 100);
    broken.take(PublishEvent::Updated);
    assert_eq!(failure(&broken), PublishError::OutOfOrder);
    let mut empty = pass(true, 100);
    empty.take(PublishEvent::Subjects(vec![]));
    empty.take(PublishEvent::Built(None));
    assert!(matches!(empty.next(), PublishAction::Done));
}

fn member(seed: u8) -> Id32 {
    let pair = libp2p::identity::Keypair::ed25519_from_bytes([seed; 32]).unwrap();
    Id32(pair.public().try_into_ed25519().unwrap().to_bytes())
}

fn head(generation: u64, hash: u8) -> RecoveryHead {
    RecoveryHead { generation, guild_id: id(50), checkpoint_hash: id(hash) }
}

fn found(publisher: u8, head: RecoveryHead) -> FoundCandidate {
    FoundCandidate {
        word: RecoveryCandidate { publisher: member(publisher), head },
        details: CandidateDetails {
            endpoint_floor: u64::from(publisher),
            endpoints: vec![format!("/ip4/198.51.100.{publisher}/udp/4001/quic-v1")],
            expires_at_unix_seconds: 1_000,
        },
    }
}

fn searching(words: Vec<FoundCandidate>) -> RecoveryAttempt {
    let mut attempt = recover_from_dht_once(member(1));
    assert!(matches!(
        attempt.next(),
        RecoveryAction::FindProviders { key } if key == recovery_mailbox_key(&member(1))
    ));
    attempt.take(RecoveryEvent::Providers(
        (0..words.len()).map(|place| format!("provider {place}")).collect(),
    ));
    for (place, word) in words.into_iter().enumerate() {
        match attempt.next() {
            RecoveryAction::FindBundle { provider, key } => {
                assert_eq!(provider, format!("provider {place}"));
                assert_eq!(key, recovery_bundle_key(&member(1), &provider));
            }
            other => panic!("{other:?}"),
        }
        attempt.take(RecoveryEvent::Answer(BundleAnswer::Candidate(word)));
    }
    assert!(matches!(attempt.next(), RecoveryAction::ReadKept));
    attempt
}

/// Lets every state be served that is named, and refuses the others.
fn check(attempt: &mut RecoveryAttempt, served: &[RecoveryHead]) -> Vec<(u64, u8)> {
    let mut checked = Vec::new();
    while let RecoveryAction::Check { head, action } = attempt.next() {
        attempt.take(RecoveryEvent::Check(match action {
            CheckAction::AddAddresses { .. } => CheckEvent::Added,
            CheckAction::FindState { .. } => {
                CheckEvent::Served(if served.iter().any(|other| other.same(&head)) {
                    Some(ServedAnswer {
                        state: ServedState {
                            genesis_valid: true,
                            checkpoint_valid: true,
                            genesis_guild_id: head.guild_id,
                            genesis_hash: id(40),
                            checkpoint_genesis_hash: id(40),
                            checkpoint_guild_id: head.guild_id,
                            checkpoint_generation: head.generation,
                            checkpoint_hash: head.checkpoint_hash,
                            members_match: true,
                        },
                        authorized: vec![true; 3],
                        members: [1, 2, 3, 4, 5].into_iter().map(member).collect(),
                        revisions: vec![
                            RevisionFacts { owner: member(1), sequence: 1, revision_id: 11 },
                            RevisionFacts { owner: member(1), sequence: 2, revision_id: 12 },
                            RevisionFacts { owner: member(2), sequence: 9, revision_id: 21 },
                        ],
                    })
                } else {
                    None
                })
            }
            CheckAction::ClearAddresses => {
                checked.push((head.generation, head.checkpoint_hash.0[0]));
                CheckEvent::Cleared
            }
            CheckAction::Done => panic!("a check that is done needs nothing"),
        }));
    }
    checked
}

#[test]
fn a_node_is_recovered_from_what_the_network_knows() {
    let mut attempt = searching(vec![
        found(2, head(7, 70)),
        found(3, head(7, 70)),
        found(4, head(9, 90)),
        found(5, head(9, 90)),
        found(6, head(9, 90)),
    ]);
    attempt.take(RecoveryEvent::Kept(vec![
        KeptCandidate {
            provider: "peer 5".to_owned(),
            publisher: member(5),
            found: Some(found(5, head(7, 70))),
        },
        KeptCandidate {
            provider: "peer 7".to_owned(),
            publisher: member(7),
            found: Some(found(7, head(7, 70))),
        },
        KeptCandidate { provider: "peer 8".to_owned(), publisher: member(8), found: None },
    ]));
    assert_eq!(check(&mut attempt, &[head(7, 70)]), vec![(9, 90), (7, 70)]);
    match attempt.next() {
        RecoveryAction::Pin { head, words, endpoint_floor } => {
            assert!(head.same(&RecoveryHead {
                generation: 7,
                guild_id: id(50),
                checkpoint_hash: id(70)
            }));
            let mut by_publisher = [(member(2).0, 0), (member(3).0, 1), (member(7).0, 5)];
            by_publisher.sort();
            assert_eq!(words, by_publisher.map(|(_, word)| word));
            assert_eq!(endpoint_floor, 7);
        }
        other => panic!("{other:?}"),
    }
    attempt.take(RecoveryEvent::Pinned);
    assert!(matches!(attempt.next(), RecoveryAction::ReadLocalEndpoints));
    attempt.take(RecoveryEvent::LocalEndpoints(vec!["here".to_owned()]));
    let mut looked_up = Vec::new();
    while let RecoveryAction::FindEndpoints { member: node, key } = attempt.next() {
        let peer = PeerId::from_key(&node.0).unwrap();
        assert_eq!(key, endpoint_record_key(&peer.text()));
        looked_up.push(node);
        attempt.take(RecoveryEvent::Endpoints(if node == member(4) {
            Some(EndpointSet {
                endpoints: vec!["nonsense".to_owned(), "/ip4/203.0.113.4/udp/1/quic-v1".to_owned()],
                expires_at_unix_seconds: 2_000,
            })
        } else {
            None
        }));
    }
    assert_eq!(looked_up, [2, 3, 4, 5].into_iter().map(member).collect::<Vec<_>>());
    let mut learned = Vec::new();
    while let RecoveryAction::Learn { place, expires_at_unix_seconds } = attempt.next() {
        learned.push((place, expires_at_unix_seconds));
        attempt.take(RecoveryEvent::Learned(place != 2));
    }
    assert_eq!(learned, vec![(1, 1_000), (2, 1_000), (3, 2_000)]);
    assert!(matches!(attempt.next(), RecoveryAction::Adopt));
    let roster: Vec<Vec<String>> =
        attempt.roster().iter().map(|entry| entry.endpoints.clone()).collect();
    assert_eq!(
        roster,
        vec![
            vec!["here".to_owned()],
            vec!["/ip4/198.51.100.2/udp/4001/quic-v1".to_owned()],
            vec![],
            vec!["/ip4/203.0.113.4/udp/1/quic-v1".to_owned()],
            vec![],
        ]
    );
    attempt.take(RecoveryEvent::Adopted);
    assert!(matches!(attempt.next(), RecoveryAction::RecoverShards));
    attempt.take(RecoveryEvent::Recovered);
    assert!(matches!(attempt.next(), RecoveryAction::Install));
    attempt.take(RecoveryEvent::Installed);
    assert!(matches!(attempt.next(), RecoveryAction::Restore { revision: 1 }));
    attempt.take(RecoveryEvent::Restored);
    match attempt.next() {
        RecoveryAction::Done(result) => {
            assert_eq!(result.generation, 7);
            assert_eq!(result.guild_id, id(50));
            assert_eq!(result.checkpoint_hash, id(70));
            assert_eq!(result.revision_id, Some(12));
        }
        other => panic!("{other:?}"),
    }
}

#[test]
fn an_attempt_at_recovery_is_repeated_or_given_up() {
    let pending = |attempt: &RecoveryAttempt| match attempt.next() {
        RecoveryAction::Pending(reason) => reason,
        other => panic!("{other:?}"),
    };
    let failure = |attempt: &RecoveryAttempt| match attempt.next() {
        RecoveryAction::Failed(error) => error,
        other => panic!("{other:?}"),
    };
    let mut attempt = recover_from_dht_once(member(1));
    attempt.take(RecoveryEvent::Failed);
    assert_eq!(pending(&attempt), RecoveryPending::ProvidersNotReady);

    let mut attempt = searching(vec![found(2, head(7, 70)), found(2, head(7, 70))]);
    attempt.take(RecoveryEvent::Kept(vec![]));
    assert_eq!(pending(&attempt), RecoveryPending::NothingConfirmed);

    let three = |head: RecoveryHead, first: u8| (first..first + 3).map(move |by| found(by, head));
    let mut attempt = searching(three(head(7, 70), 2).collect());
    attempt.take(RecoveryEvent::Kept(vec![]));
    assert_eq!(check(&mut attempt, &[]), vec![(7, 70)]);
    assert_eq!(pending(&attempt), RecoveryPending::NothingCertified);

    let both = three(head(7, 70), 2).chain(three(head(7, 71), 5)).collect();
    let mut attempt = searching(both);
    attempt.take(RecoveryEvent::Kept(vec![]));
    assert_eq!(check(&mut attempt, &[head(7, 70), head(7, 71)]), vec![(7, 70), (7, 71)]);
    assert_eq!(failure(&attempt), RecoveryFailure::Ambiguous(7));

    let mut attempt = searching(vec![]);
    attempt.take(RecoveryEvent::Failed);
    assert_eq!(failure(&attempt), RecoveryFailure::Outside);
    let mut attempt = searching(vec![]);
    attempt.take(RecoveryEvent::Pinned);
    assert_eq!(failure(&attempt), RecoveryFailure::OutOfOrder);
}

#[test]
fn a_provider_that_contradicts_itself_is_not_heard() {
    let mut attempt = recover_from_dht_once(id(1));
    attempt.take(RecoveryEvent::Providers(vec!["a".to_owned(), "b".to_owned()]));
    attempt.take(RecoveryEvent::Answer(BundleAnswer::Conflicting));
    attempt.take(RecoveryEvent::Answer(BundleAnswer::Nothing));
    let kept = |provider: &str, by: u8| KeptCandidate {
        provider: provider.to_owned(),
        publisher: id(by),
        found: Some(found(by, head(7, 70))),
    };
    attempt.take(RecoveryEvent::Kept(vec![kept("a", 2), kept("b", 3), kept("b", 4)]));
    assert!(matches!(
        attempt.next(),
        RecoveryAction::Pending(RecoveryPending::NothingConfirmed)
    ));
}

fn directory_find(publisher: u8, hash: u8) -> DirectoryFind {
    DirectoryFind {
        record: PublishedRecord {
            signature_valid: true,
            signer: id(publisher),
            format_version: 1,
            subject: id(1),
            publisher: id(publisher),
            guild_id: id(50),
            checkpoint_hash: id(hash),
            checkpoint_generation: 3,
            expires_at_unix_seconds: u64::MAX,
        },
        opened: Some(RecoveryLocator {
            signature_valid: true,
            signer: id(publisher),
            format_version: 1,
            subject: id(1),
            publisher: id(publisher),
            guild_id: id(50),
            checkpoint_hash: id(hash),
            checkpoint_generation: 3,
            expires_at_unix_seconds: u64::MAX,
            endpoints: vec![],
            subject_endpoint_sequence_floor: 0,
        }),
        callable: true,
    }
}

#[test]
fn a_node_is_recovered_over_direct_connections() {
    let mut recovery = recover_over_network(id(1));
    assert!(matches!(recovery.next(), NetworkRecoveryAction::Lookup { subject } if subject == id(1)));
    let mut expired = directory_find(2, 60);
    expired.record.expires_at_unix_seconds = 9;
    let mut silent = directory_find(2, 60);
    silent.callable = false;
    let mut sealed = directory_find(2, 60);
    sealed.opened = None;
    let mut other = directory_find(2, 60);
    other.record.guild_id = id(51);
    recovery.take(NetworkRecoveryEvent::Records(vec![
        expired,
        directory_find(2, 60),
        silent,
        directory_find(3, 61),
        sealed,
        directory_find(4, 61),
        other,
        directory_find(5, 62),
    ]));
    let mut asked = Vec::new();
    while let NetworkRecoveryAction::FindState { record, asked: state } = recovery.next() {
        asked.push((record, state.publisher.0[0], state.hash.0[0]));
        recovery.take(NetworkRecoveryEvent::State(match record {
            1 => Some(ServedFacts { authority: true, generation: 2, hash: id(60) }),
            3 => Some(ServedFacts { authority: true, generation: 3, hash: id(61) }),
            5 => Some(ServedFacts { authority: true, generation: 3, hash: id(61) }),
            _ => Some(ServedFacts { authority: false, generation: 9, hash: id(62) }),
        }));
    }
    assert_eq!(asked, vec![(1, 2, 60), (3, 3, 61), (5, 4, 61), (7, 5, 62)]);
    match recovery.next() {
        NetworkRecoveryAction::RecoverShards { record, servers } => {
            assert_eq!(record, 5);
            assert_eq!(servers, vec![3, 5]);
        }
        other => panic!("{other:?}"),
    }
    recovery.take(NetworkRecoveryEvent::Recovered);
    assert!(matches!(recovery.next(), NetworkRecoveryAction::Install { record: 5 }));
    recovery.take(NetworkRecoveryEvent::Installed(vec![
        RevisionFacts { owner: id(1), sequence: 4, revision_id: 1 },
        RevisionFacts { owner: id(1), sequence: 4, revision_id: 2 },
    ]));
    assert!(matches!(
        recovery.next(),
        NetworkRecoveryAction::Restore { record: 5, revision: 1 }
    ));
    recovery.take(NetworkRecoveryEvent::Restored);
    assert!(matches!(recovery.next(), NetworkRecoveryAction::Done { record: 5 }));
}

#[test]
fn a_node_is_not_recovered_without_a_certified_state() {
    let failure = |event: NetworkRecoveryEvent| {
        let mut recovery = recover_over_network(id(1));
        recovery.take(event);
        match recovery.next() {
            NetworkRecoveryAction::Failed(error) => error,
            other => panic!("{other:?}"),
        }
    };
    assert_eq!(
        failure(NetworkRecoveryEvent::Records(vec![])),
        NetworkRecoveryError::NothingServed
    );
    assert_eq!(failure(NetworkRecoveryEvent::Failed), NetworkRecoveryError::Outside);
    assert_eq!(failure(NetworkRecoveryEvent::Recovered), NetworkRecoveryError::OutOfOrder);
}

fn group(number: u8, holders: [u8; 5]) -> GroupRoles {
    let information = |place: usize| ShardRole::Information {
        owner: id(holders[place]),
        sector_id: id(number * 10 + place as u8),
        root: id(100 + number * 10 + place as u8),
    };
    let parity = |place: usize| ShardRole::Parity {
        holder: id(holders[place]),
        row: place as u8 - 3,
        root: id(100 + number * 10 + place as u8),
    };
    GroupRoles {
        id: id(number),
        roles: vec![information(0), information(1), information(2), parity(3), parity(4)],
    }
}

#[test]
fn the_shards_of_a_node_are_rebuilt() {
    let groups = vec![
        group(1, [1, 2, 3, 4, 5]),
        group(2, [2, 3, 4, 5, 6]),
        group(3, [2, 3, 4, 1, 5]),
        group(4, [2, 3, 1, 4, 5]),
    ];
    let mut shards = recover_local_shards_with(&groups, &id(1));
    let target = match shards.next() {
        ShardAction::Probe(target) => target,
        other => panic!("{other:?}"),
    };
    assert_eq!((target.group, target.index, target.root), (0, 0, id(110)));
    shards.take(ShardEvent::Probed(true));
    assert!(
        matches!(shards.next(), ShardAction::Probe(target) if target.group == 2 && target.index == 3)
    );
    shards.take(ShardEvent::Probed(false));
    assert!(matches!(shards.next(), ShardAction::Rebuild(_)));
    shards.take(ShardEvent::Rebuilt(id(133)));
    assert!(matches!(shards.next(), ShardAction::Keep(_)));
    shards.take(ShardEvent::Kept);
    shards.take(ShardEvent::Probed(true));
    assert!(matches!(shards.next(), ShardAction::Done));
    assert!(matches!(recover_local_shards_with(&groups, &id(9)).next(), ShardAction::Done));
    let failure = |events: Vec<ShardEvent>| {
        let mut shards = recover_local_shards_with(&groups, &id(1));
        for event in events {
            shards.take(event);
        }
        match shards.next() {
            ShardAction::Failed(error) => error,
            other => panic!("{other:?}"),
        }
    };
    assert_eq!(
        failure(vec![ShardEvent::Probed(false), ShardEvent::Rebuilt(id(9))]),
        ShardError::WrongRoot
    );
    assert_eq!(failure(vec![ShardEvent::Failed]), ShardError::Outside);
    assert_eq!(failure(vec![ShardEvent::Kept]), ShardError::OutOfOrder);
}

#[test]
fn shards_are_fetched_over_direct_connections() {
    let group = group(1, [1, 2, 3, 4, 5]);
    let reachable = vec![id(2), id(3), id(4), id(5)];
    let mut unhealthy: KeySet<Id32> = KeySet::new();
    let mut fetch = DirectFetch::new(group.roles.clone(), 8, 0, &reachable, &unhealthy);
    assert_eq!(fetch.next(), DirectStep::Ask(1));
    fetch.take(&mut unhealthy, Some((8, id(111))));
    fetch.take(&mut unhealthy, Some((7, id(112))));
    fetch.take(&mut unhealthy, Some((8, id(113))));
    assert_eq!(fetch.next(), DirectStep::Ask(4));
    fetch.take(&mut unhealthy, Some((8, id(114))));
    assert_eq!(fetch.next(), DirectStep::Rebuild);
    assert!(unhealthy.contains(id(3)));
    assert!(!unhealthy.contains(id(2)));
    let mut fetch = DirectFetch::new(group.roles, 8, 0, &reachable, &unhealthy);
    fetch.take(&mut unhealthy, None);
    assert_eq!(fetch.next(), DirectStep::Ask(3));
    fetch.take(&mut unhealthy, Some((8, id(113))));
    fetch.take(&mut unhealthy, Some((8, id(114))));
    assert_eq!(fetch.next(), DirectStep::TooFew);
}

#[test]
fn a_snapshot_is_restored_once_its_sectors_are_whole() {
    let reference = |number: u8, place: u8| SectorRef {
        id: id(number * 10 + place),
        root: id(100 + number * 10 + place),
    };
    let plan = |sectors: Vec<SectorRef>| SnapshotEvent::Planned {
        sectors,
        groups: vec![group(1, [1, 2, 3, 4, 5]), group(2, [1, 2, 3, 4, 5])],
    };
    let mut restore = restore_snapshot_with_p2p(1024);
    assert!(matches!(restore.next(), SnapshotAction::Resume));
    restore.take(SnapshotEvent::Resumed(false));
    assert!(matches!(restore.next(), SnapshotAction::Plan));
    restore.take(plan(vec![reference(1, 0), reference(2, 1)]));
    assert!(
        matches!(restore.next(), SnapshotAction::Probe { sector } if sector.id == id(10))
    );
    restore.take(SnapshotEvent::Probed(Some((1024, id(110)))));
    restore.take(SnapshotEvent::Probed(Some((1023, id(121)))));
    assert!(matches!(restore.next(), SnapshotAction::Rebuild { group: 1, index: 1 }));
    restore.take(SnapshotEvent::Rebuilt);
    assert!(
        matches!(restore.next(), SnapshotAction::Install { sector } if sector.id == id(21))
    );
    restore.take(SnapshotEvent::Installed);
    assert!(matches!(restore.next(), SnapshotAction::Restore));
    restore.take(SnapshotEvent::Restored);
    assert!(matches!(restore.next(), SnapshotAction::Done));

    let failure = |events: Vec<SnapshotEvent>| {
        let mut restore = restore_snapshot_with_p2p(1024);
        for event in events {
            restore.take(event);
        }
        match restore.next() {
            SnapshotAction::Failed(error) => error,
            other => panic!("{other:?}"),
        }
    };
    assert_eq!(
        failure(vec![
            SnapshotEvent::Resumed(false),
            plan(vec![reference(3, 0)]),
            SnapshotEvent::Probed(None)
        ]),
        SnapshotError::NotInCatalog
    );
    assert_eq!(failure(vec![SnapshotEvent::Failed]), SnapshotError::Outside);
    assert_eq!(failure(vec![SnapshotEvent::Restored]), SnapshotError::OutOfOrder);
    let mut restore = restore_snapshot_with_p2p(1024);
    restore.take(SnapshotEvent::Resumed(true));
    assert!(matches!(restore.next(), SnapshotAction::Done));
}

#[test]
fn recovery_accumulates_shards_across_alternating_availability_and_restart() {
    let groups = vec![group(1, [121, 122, 123, 120, 124]), group(2, [121, 122, 123, 120, 124])];
    let mut staged: Vec<usize> = Vec::new();
    let mut rebuilt: Vec<usize> = Vec::new();
    let mut window = |available: &[usize], rebuilt: &mut Vec<usize>| {
        let mut shards = recover_local_shards_with(&groups, &id(120));
        loop {
            let event = match shards.next() {
                ShardAction::Probe(target) => ShardEvent::Probed(staged.contains(&target.group)),
                ShardAction::Rebuild(target) => {
                    assert_eq!(target.index, 3);
                    if available.contains(&target.group) {
                        rebuilt.push(target.group);
                        ShardEvent::Rebuilt(target.root)
                    } else {
                        ShardEvent::Failed
                    }
                }
                ShardAction::Keep(target) => {
                    staged.push(target.group);
                    ShardEvent::Kept
                }
                ShardAction::Done => return (true, staged.clone()),
                ShardAction::Failed(_) => return (false, staged.clone()),
            };
            shards.take(event);
        }
    };
    assert_eq!(window(&[0], &mut rebuilt), (false, vec![0]));
    rebuilt.clear();
    assert_eq!(window(&[1], &mut rebuilt), (true, vec![0, 1]));
    assert_eq!(rebuilt, vec![1], "the durable first shard was fetched again");
}

#[test]
fn any_three_valid_shards_rebuild_a_fourth() {
    for holders in [[1, 2, 3, 4, 5], [1, 1, 2, 2, 3], [1, 2, 1, 2, 1]] {
        let roles = group(1, holders).roles;
        let roster: Vec<Id32> = (1..=5).map(id).collect();
        for target in 0..5_usize {
            for valid in 0..32_usize {
                let had = |index: usize| index != target && valid >> index & 1 == 1;
                for wanting in 0..32_u8 {
                    let mut deferred: KeySet<Id32> = KeySet::new();
                    for holder in 0..5_u8 {
                        if wanting >> holder & 1 == 1 {
                            deferred.insert(id(holder + 1));
                        }
                    }
                    let mut fetch =
                        reconstruct_shard_from_peers(roles.clone(), target, roster.clone()).unwrap();
                    let rebuilt = loop {
                        let asked = match fetch.next(&deferred) {
                            FetchStep::Rebuild => break true,
                            FetchStep::Failed => break false,
                            FetchStep::Ask(asked) => asked,
                        };
                        for index in &asked {
                            let root = if had(*index) { roles[*index].root() } else { id(0) };
                            if fetch.received(*index, 8, 8, &root) {
                                break;
                            }
                        }
                        fetch.round_over(&mut deferred, &asked);
                    };
                    let enough = (0..5).filter(|index| had(*index)).count() >= 3;
                    assert_eq!(rebuilt, enough, "{holders:?} {target} {valid} {wanting}");
                }
            }
        }
    }
    assert!(reconstruct_shard_from_peers(group(1, [1, 2, 3, 4, 5]).roles, 5, vec![]).is_none());
}
