//! Services of a node: direct requests, the directory, frames, keys, the
//! control socket and automatic work.

use mb_node::arti_config::{
    configured_path, effective_storage, load_arti_config, ArtiConfigError, ArtiStorage,
    PathSetting, Setting,
};
use mb_node::automation::{
    after_asking, after_submitting, audit_pause, backup_action, corrupt_objects,
    AutomaticBackupPoll, BackupAction, JobView,
};
use mb_node::control::{
    is_private_directory, local_response, local_result, removes_socket, take_over, FileIdentity,
    LocalRequest, LocalRequestEnvelope, LocalResponse, NodeStatus, ProtectedRoot, SocketDirectory,
    SocketProbe, SocketStep, UnlockSecret, LOCAL_WIRE_FORMAT_VERSION,
};
use mb_node::decimal::decimal_text;
use mb_node::dht::DhtRecord;
use mb_node::direct::{
    build_record, execute_peer_request, lock_error, newest_served, parse_tcp_endpoint, peer_call,
    peer_call_expected, process_peer_request, published_record_counts, server_config_valid,
    servers, CallError, DirectAnswer, DirectReply, DirectRequest, ExecutionStep, KeptState,
    PublishedRecord, RecordRefusal, RecordRequest, RememberedChange, RequestRefusal, RequestStep,
    ServedCheckpoint,
};
use mb_node::directory::{
    lookup_answer, publish_answer, DirectoryFailure, DirectoryRecord, DirectoryResponse,
    DirectoryState, Publication, PublishOutcome,
};
use mb_node::framing::{
    decode_frame, decode_length, encode_frame, FrameKind, FrameRead, MAX_LOCAL_FRAME_BYTES,
    MAX_PEER_FRAME_BYTES,
};
use mb_node::hashing::{content_hash, endpoint_record_key, recovery_bundle_key, recovery_mailbox_key};
use mb_node::ids::Id32;
use mb_node::ordered::OrderedSet;
use mb_node::paths::{components_of, directories_overlap, same_path};
use mb_node::queries::{handle_dht_result, DhtAnswer, DhtProgress, DhtQuery, DhtStep};
use mb_node::settings::{find_field, set_text, table_entry, Field};
use mb_node::tor::TorTransportConfig;
use mb_node::tor_files::{
    accepts_stream, check_directories, check_key, check_service, check_streams,
    prepare_private_directory,
    validate_onion_service_state, wait_for_onion_service_shutdown, DirectoryError, LaunchError,
    LockProbe, PathState, ShutdownStep, StreamRequest, SERVICE_SHUTDOWN_TIMEOUT_MILLIS,
};
use mb_node::wire::{CheckpointObjectKind, PeerRequest, ResponseKind};

fn id(byte: u8) -> Id32 {
    Id32([byte; 32])
}

#[test]
fn endpoint_parser_is_strict() {
    assert_eq!(parse_tcp_endpoint("tcp://127.0.0.1:1234").unwrap(), "127.0.0.1:1234");
    assert!(parse_tcp_endpoint("http://127.0.0.1:1234").is_none());
}

/// A request in the form in which it goes over the control socket.
fn written(request: &LocalRequest) -> serde_json::Value {
    match request {
        LocalRequest::Status => serde_json::Value::String("Status".to_owned()),
        LocalRequest::AddRoot { path } => {
            let mut fields = serde_json::Map::new();
            fields.insert("path".to_owned(), serde_json::Value::String(path.clone()));
            let mut variant = serde_json::Map::new();
            variant.insert("AddRoot".to_owned(), serde_json::Value::Object(fields));
            serde_json::Value::Object(variant)
        }
    }
}

fn read(value: &serde_json::Value) -> Option<LocalRequest> {
    if value.as_str() == Some("Status") {
        return Some(LocalRequest::Status);
    }
    let path = value.get("AddRoot")?.get("path")?.as_str()?;
    Some(LocalRequest::AddRoot { path: path.to_owned() })
}

#[test]
fn local_protocol_round_trips() {
    let request = LocalRequest::AddRoot { path: "/var/lib/data".to_owned() };
    let bytes = serde_json::to_vec(&written(&request)).unwrap();
    let frame = encode_frame(FrameKind::Local, &bytes).unwrap();
    let payload = match decode_frame(FrameKind::Local, &frame) {
        FrameRead::Frame(payload, used) => {
            assert_eq!(used, frame.len());
            payload
        }
        _ => panic!("a whole frame was not read"),
    };
    let decoded = read(&serde_json::from_slice(&payload).unwrap()).unwrap();
    assert!(matches!(
        decoded,
        LocalRequest::AddRoot { path } if path == "/var/lib/data"
    ));
}

#[test]
fn frames_say_how_long_they_are_and_are_not_too_long() {
    let frame = encode_frame(FrameKind::Peer, &vec![7, 8]).unwrap();
    assert_eq!(frame, vec![0, 0, 0, 2, 7, 8]);
    assert!(matches!(decode_frame(FrameKind::Peer, &vec![0, 0, 0, 2, 7]), FrameRead::Incomplete));
    assert!(encode_frame(FrameKind::Local, &vec![0; MAX_LOCAL_FRAME_BYTES]).is_some());
    assert!(encode_frame(FrameKind::Local, &vec![0; MAX_LOCAL_FRAME_BYTES + 1]).is_none());
    let header = |length: usize| (length as u32).to_be_bytes();
    assert_eq!(
        decode_length(FrameKind::Local, &header(MAX_LOCAL_FRAME_BYTES)),
        Some(MAX_LOCAL_FRAME_BYTES)
    );
    assert_eq!(decode_length(FrameKind::Local, &header(MAX_LOCAL_FRAME_BYTES + 1)), None);
    assert_eq!(decode_length(FrameKind::Peer, &header(MAX_PEER_FRAME_BYTES + 1)), None);
    let mut long = header(MAX_PEER_FRAME_BYTES + 1).to_vec();
    long.push(0);
    assert!(matches!(decode_frame(FrameKind::Peer, &long), FrameRead::Refused));
}

#[test]
fn keys_of_the_dht_are_derived_from_kind_and_parts() {
    assert_eq!(content_hash(b"abc").0, *blake3::hash(b"abc").as_bytes());
    let mut material = b"mailbox".to_vec();
    material.extend_from_slice(&32_u64.to_le_bytes());
    material.extend_from_slice(&[1; 32]);
    let expected = blake3::derive_key("mutualbackup kademlia key v1", &material);
    assert_eq!(recovery_mailbox_key(&id(1)), expected.to_vec());
    let bundle = recovery_bundle_key(&id(1), "peer");
    assert_eq!(bundle.len(), 32);
    assert_ne!(bundle, recovery_bundle_key(&id(1), "peer2"));
    assert_ne!(bundle, recovery_bundle_key(&id(2), "peer"));
    assert_ne!(endpoint_record_key("peer"), recovery_mailbox_key(&id(1)));
    assert_eq!(decimal_text(0), "0");
    assert_eq!(decimal_text(u64::MAX), u64::MAX.to_string());
}

#[test]
fn changes_are_made_once_and_only_for_the_coordinator() {
    let ask = |request: DirectRequest, caller: u8, remembered: RememberedChange| {
        process_peer_request(request, true, &id(caller), &id(1), &id(2), remembered)
    };
    assert_eq!(
        ask(DirectRequest::GetSector, 9, RememberedChange::Nothing),
        Ok(RequestStep::Execute)
    );
    assert_eq!(
        ask(DirectRequest::PublishParity, 9, RememberedChange::Nothing),
        Err(RequestRefusal::NotCoordinator)
    );
    assert_eq!(
        ask(DirectRequest::PublishParity, 1, RememberedChange::Nothing),
        Ok(RequestStep::ExecuteAndRemember)
    );
    assert_eq!(
        ask(DirectRequest::PublishParity, 1, RememberedChange::Outcome),
        Ok(RequestStep::Repeat)
    );
    assert_eq!(
        ask(DirectRequest::PublishParity, 1, RememberedChange::Refused),
        Err(RequestRefusal::Conflict)
    );
    assert_eq!(
        ask(DirectRequest::PrepareSource, 1, RememberedChange::Nothing),
        Err(RequestRefusal::NotSource)
    );
    assert_eq!(
        process_peer_request(
            DirectRequest::Profile,
            false,
            &id(1),
            &id(1),
            &id(2),
            RememberedChange::Nothing
        ),
        Err(RequestRefusal::Signature)
    );
    assert_eq!(DirectRequest::Profile.mutation_kind(), None);
    assert_eq!(DirectRequest::PublishParity.mutation_kind(), Some("publish-parity"));
}

#[test]
fn a_reply_is_taken_only_if_it_answers_its_request() {
    let reply = DirectReply {
        signature_valid: true,
        signer: id(3),
        request_id: 7,
        answer: Some(DirectAnswer::Ack),
    };
    let check = |reply: DirectReply| {
        peer_call_expected(&reply, 7, &id(3), &DirectRequest::StoreCheckpoint)
    };
    assert_eq!(check(reply), Ok(()));
    assert_eq!(peer_call(&reply, 7), Ok((id(3), DirectAnswer::Ack)));
    assert_eq!(
        check(DirectReply { signature_valid: false, ..reply }),
        Err(CallError::Signature)
    );
    assert_eq!(check(DirectReply { request_id: 8, ..reply }), Err(CallError::WrongRequest));
    assert_eq!(check(DirectReply { answer: None, ..reply }), Err(CallError::Refused));
    assert_eq!(check(DirectReply { signer: id(4), ..reply }), Err(CallError::WrongSigner));
    assert_eq!(
        check(DirectReply { answer: Some(DirectAnswer::Bytes), ..reply }),
        Err(CallError::WrongAnswer)
    );
}

#[test]
fn a_recovery_record_is_built_for_a_state_that_names_its_subject() {
    let state = KeptState { guild_id: id(1), generation: 4, names_subject: true };
    let wanted = RecordRequest {
        subject: id(2),
        guild_id: id(1),
        checkpoint_hash: id(5),
        checkpoint_generation: 4,
        expires_at_unix_seconds: u64::MAX,
    };
    let step = |wanted: RecordRequest, state: Option<KeptState>| {
        execute_peer_request(&DirectRequest::BuildRecoveryRecord(wanted), state)
    };
    assert!(matches!(step(wanted, None), ExecutionStep::LoadState(hash) if hash == id(5)));
    assert!(matches!(
        step(wanted, Some(state)),
        ExecutionStep::Perform(DirectAnswer::RecoveryRecord)
    ));
    let expiring = RecordRequest { expires_at_unix_seconds: 5, ..wanted };
    for state in [None, Some(state)] {
        assert!(matches!(
            step(expiring, state),
            ExecutionStep::Refuse(RecordRefusal::Expires)
        ));
    }
    for wrong in [
        KeptState { names_subject: false, ..state },
        KeptState { generation: 5, ..state },
        KeptState { guild_id: id(9), ..state },
    ] {
        assert!(matches!(
            step(wanted, Some(wrong)),
            ExecutionStep::Refuse(RecordRefusal::WrongState)
        ));
    }
    assert!(matches!(
        execute_peer_request(&DirectRequest::GetParity, None),
        ExecutionStep::Perform(DirectAnswer::Bytes)
    ));
    let built = build_record(&wanted, id(3));
    assert!(published_record_counts(&built, &id(2)));
    assert!(!published_record_counts(&built, &id(3)));
    let record = PublishedRecord {
        signature_valid: true,
        signer: id(3),
        format_version: 1,
        subject: id(2),
        publisher: id(3),
        guild_id: id(1),
        checkpoint_hash: id(5),
        checkpoint_generation: 4,
        expires_at_unix_seconds: u64::MAX,
    };
    assert!(published_record_counts(&record, &id(2)));
    assert!(!published_record_counts(&record, &id(9)));
    assert!(!published_record_counts(&PublishedRecord { signer: id(4), ..record }, &id(2)));
    let served = |publisher: u8, generation: u64, hash: u8| ServedCheckpoint {
        publisher: id(publisher),
        generation,
        hash: id(hash),
    };
    let all = vec![served(1, 3, 3), served(2, 4, 4), served(3, 4, 4)];
    let newest = newest_served(&all).unwrap();
    assert_eq!(all[newest].generation, 4);
    assert_eq!(servers(&all, &id(4)), vec![1, 2]);
    assert_eq!(newest_served(&vec![]), None);
    assert!(server_config_valid("rack", 1));
    assert!(!server_config_valid("", 1));
    assert!(!server_config_valid("rack", 0));
    assert!(lock_error().contains("poisoned"));
}

fn publication(publisher: u8, generation: u64, hash: u8) -> Publication {
    Publication {
        signature_valid: true,
        signer: id(publisher),
        format_version: 1,
        expires_at_unix_seconds: u64::MAX,
        record: DirectoryRecord {
            subject: id(1),
            publisher: id(publisher),
            checkpoint_hash: id(hash),
            checkpoint_generation: generation,
            signed: vec![publisher, hash],
        },
    }
}

#[test]
fn the_directory_gives_back_what_was_published_and_never_goes_back() {
    let mut state = DirectoryState::new();
    assert!(state.lookup(&id(1)).is_empty());
    assert_eq!(state.publish(publication(2, 4, 4)), PublishOutcome::Accepted);
    assert_eq!(state.publish(publication(3, 1, 1)), PublishOutcome::Accepted);
    assert_eq!(state.publish(publication(2, 3, 3)), PublishOutcome::RollbackOrFork);
    assert_eq!(state.publish(publication(2, 4, 9)), PublishOutcome::RollbackOrFork);
    let unsigned = Publication { signature_valid: false, ..publication(4, 1, 1) };
    assert_eq!(state.publish(unsigned), PublishOutcome::InvalidSignature);
    assert_eq!(state.publish(publication(2, 5, 5)), PublishOutcome::Accepted);
    let found = state.lookup(&id(1));
    assert_eq!(
        found.iter().map(|record| record.signed.clone()).collect::<Vec<_>>(),
        vec![vec![2, 5], vec![3, 1]]
    );
    assert!(state.lookup(&id(9)).is_empty());
    assert!(publish_answer(DirectoryResponse::Ack).is_ok());
    assert!(matches!(
        publish_answer(DirectoryResponse::Error("no".to_owned())),
        Err(DirectoryFailure::Refused(_))
    ));
    assert!(matches!(
        publish_answer(DirectoryResponse::Records(Vec::new())),
        Err(DirectoryFailure::WrongAnswer)
    ));
    assert!(lookup_answer(DirectoryResponse::Records(Vec::new())).is_ok());
    assert!(matches!(
        lookup_answer(DirectoryResponse::Ack),
        Err(DirectoryFailure::WrongAnswer)
    ));
}

#[test]
fn requests_say_what_they_change_and_what_answers_them() {
    let read_only = PeerRequest::GetSector { guild_id: id(1) };
    assert!(read_only.is_read_only());
    assert_eq!(read_only.mutation_kind(), None);
    assert_eq!(read_only.guild_scope(), Some(id(1)));
    assert!(read_only.accepts(ResponseKind::Bytes));
    assert!(!read_only.accepts(ResponseKind::Ack));
    let change = PeerRequest::PublishParity { guild_id: id(1) };
    assert!(!change.is_read_only());
    assert!(change.mutation_kind().is_some());
    assert_eq!(change.recipient(id(4)), Some(id(4)));
    assert_eq!(PeerRequest::Profile.recipient(id(4)), None);
    assert!(change.accepts(ResponseKind::StorageAcknowledgement));
    assert_eq!(PeerRequest::Profile.guild_scope(), None);
    assert!(!PeerRequest::SignGuildEvent { guild_id: id(1) }.accepts(ResponseKind::Other));
    assert_eq!(CheckpointObjectKind::Body.as_str(), "body");
    assert_eq!(CheckpointObjectKind::Certificate.as_str(), "certificate");
}

#[test]
fn queries_end_with_what_was_found() {
    let record = DhtRecord { publisher: None, value: vec![0] };
    let found = |byte: u8| DhtProgress::RecordFound { publisher: None, value: vec![byte] };
    let query = DhtQuery::Get { records: vec![record] };
    let query = match handle_dht_result(query, found(1), false) {
        DhtStep::Pending(query) => query,
        DhtStep::Ended(_) => panic!("the query ended early"),
    };
    match handle_dht_result(query, found(2), true) {
        DhtStep::Ended(DhtAnswer::Records(records)) => {
            let values: Vec<Vec<u8>> = records.into_iter().map(|record| record.value).collect();
            assert_eq!(values, vec![vec![0], vec![1], vec![2]]);
        }
        _ => panic!("the query did not end with its records"),
    }
    assert!(matches!(
        handle_dht_result(DhtQuery::Put, DhtProgress::PutEnded { stored: true }, true),
        DhtStep::Ended(DhtAnswer::Done)
    ));
    assert!(matches!(
        handle_dht_result(DhtQuery::Put, DhtProgress::PutEnded { stored: false }, true),
        DhtStep::Ended(DhtAnswer::Failed)
    ));
    assert!(matches!(
        handle_dht_result(
            DhtQuery::Providers { providers: OrderedSet::new() },
            DhtProgress::PutEnded { stored: true },
            true
        ),
        DhtStep::Ended(DhtAnswer::Mismatched)
    ));
}

#[test]
fn the_control_socket_is_private_and_taken_over_only_when_it_is_free() {
    let directory = SocketDirectory { is_directory: true, owner: 7, mode: 0o40700 };
    assert!(is_private_directory(&directory, 7));
    assert!(!is_private_directory(&directory, 8));
    assert!(!is_private_directory(&SocketDirectory { mode: 0o40710, ..directory }, 7));
    assert!(!is_private_directory(&SocketDirectory { mode: 0o40701, ..directory }, 7));
    assert!(!is_private_directory(&SocketDirectory { is_directory: false, ..directory }, 7));
    assert_eq!(take_over(SocketProbe::Nothing), SocketStep::Bind);
    assert_eq!(take_over(SocketProbe::Refused), SocketStep::RemoveAndBind);
    assert_eq!(take_over(SocketProbe::Gone), SocketStep::RemoveAndBind);
    assert_eq!(take_over(SocketProbe::NoSocket), SocketStep::RefuseNoSocket);
    assert_eq!(take_over(SocketProbe::Answered), SocketStep::RefuseAnswered);
    assert_eq!(take_over(SocketProbe::Unknown), SocketStep::RefuseUnknown);
    let bound = FileIdentity { device: 1, inode: 2 };
    assert!(removes_socket(bound, Some(bound), true));
    assert!(!removes_socket(bound, Some(FileIdentity { inode: 3, ..bound }), true));
    assert!(!removes_socket(bound, Some(bound), false));
    assert!(!removes_socket(bound, None, true));
}

#[test]
fn a_rejected_local_request_is_told_to_its_caller() {
    let answer = local_response(Err("no such directory".to_owned()));
    assert_eq!(
        local_result(answer).err().unwrap(),
        "daemon rejected request: no such directory"
    );
    let root = ProtectedRoot {
        format_version: 1,
        root_id: 2,
        path: "/data".to_owned(),
        filesystem_device: 3,
    };
    let status = NodeStatus {
        format_version: 1,
        node_id: id(4),
        data_dir: "/var/lib/node".to_owned(),
        protected_root: Some(root.clone()),
        checkpoint_count: 5,
    };
    assert!(matches!(
        local_result(local_response(Ok(LocalResponse::Status(status)))),
        Ok(LocalResponse::Status(_))
    ));
    assert!(matches!(
        local_result(local_response(Ok(LocalResponse::RootAdded(root)))),
        Ok(LocalResponse::RootAdded(_))
    ));
    let envelope = LocalRequestEnvelope {
        format_version: LOCAL_WIRE_FORMAT_VERSION,
        request_id: [0; 16],
        request: LocalRequest::Status,
    };
    assert_eq!(envelope.format_version, 1);
    let secret = UnlockSecret::new([9; 32]);
    assert_eq!(secret.seed(), [9; 32]);
    assert_eq!(secret.redacted(), "UnlockSecret(REDACTED)");
}

#[test]
fn automatic_backups_are_asked_after_submitted_and_noted() {
    assert!(matches!(backup_action(AutomaticBackupPoll::Idle), BackupAction::Nothing));
    assert!(matches!(
        backup_action(AutomaticBackupPoll::InFlight(3)),
        BackupAction::Ask { revision: 3 }
    ));
    assert!(matches!(
        backup_action(AutomaticBackupPoll::Start { estimated_bytes: 1 }),
        BackupAction::Submit
    ));
    assert!(matches!(
        after_asking(3, JobView::Committed),
        BackupAction::NoteFinished { revision: Some(3), committed: true, error: None }
    ));
    match after_asking(3, JobView::Failed { error: None }) {
        BackupAction::NoteFinished { revision: Some(3), committed: false, error: Some(error) } => {
            assert_eq!(error, "automatic backup failed");
        }
        _ => panic!("a failure was not noted"),
    }
    assert!(matches!(after_asking(3, JobView::Open), BackupAction::Nothing));
    assert!(matches!(after_asking(3, JobView::Unknown), BackupAction::Nothing));
    assert!(matches!(
        after_submitting(Ok(4)),
        BackupAction::NoteSubmitted { revision: 4 }
    ));
    assert!(matches!(
        after_submitting(Err("full".to_owned())),
        BackupAction::NoteFinished { revision: None, committed: false, error: Some(_) }
    ));
    assert_eq!(audit_pause(0), None);
    assert_eq!(audit_pause(30), Some(30));
    assert_eq!(audit_pause(3600), Some(60));
    assert_eq!(corrupt_objects(&vec![1, 0, 4]), 5);
}

#[test]
fn the_directories_of_the_onion_client_are_its_own_and_apart() {
    assert!(directories_overlap("/a/b", "/a"));
    assert!(directories_overlap("/a", "/a"));
    assert!(directories_overlap("/a", "/a//b/."));
    assert!(!directories_overlap("/ab", "/a"));
    assert_eq!(prepare_private_directory(PathState::Missing, 7), Ok(()));
    assert_eq!(prepare_private_directory(PathState::Directory { owner: 7 }, 7), Ok(()));
    assert_eq!(
        prepare_private_directory(PathState::Directory { owner: 8 }, 7),
        Err(DirectoryError::OtherOwner)
    );
    assert_eq!(
        prepare_private_directory(PathState::Other, 7),
        Err(DirectoryError::NoDirectory)
    );
    assert_eq!(validate_onion_service_state(PathState::Directory { owner: 8 }), Ok(()));
    assert_eq!(validate_onion_service_state(PathState::Other), Err(DirectoryError::NoDirectory));
    assert_eq!(validate_onion_service_state(PathState::Unknown), Err(DirectoryError::Unknown));
    assert_eq!(check_streams(8), Ok(()));
    assert_eq!(check_streams(0), Err(LaunchError::NoStreams));
    assert_eq!(check_directories("/state", "/cache"), Ok(()));
    assert_eq!(check_directories("/state", "/state/cache"), Err(LaunchError::Overlap));
    assert_eq!(check_directories("/cache/state", "/cache/"), Err(LaunchError::Overlap));
    assert_eq!(check_key(&id(1), &id(1)), Ok(()));
    assert_eq!(check_key(&id(2), &id(1)), Err(LaunchError::OtherIdentity));
    assert!(accepts_stream(StreamRequest::Begin { port: 443 }));
    assert!(!accepts_stream(StreamRequest::Begin { port: 80 }));
    assert!(!accepts_stream(StreamRequest::Other));
}

#[test]
fn the_end_of_the_onion_service_is_waited_for() {
    let wait = |probe: LockProbe, now: u64| wait_for_onion_service_shutdown(probe, 100, now);
    assert_eq!(wait(LockProbe::Missing, 100), ShutdownStep::Ended);
    assert_eq!(wait(LockProbe::Had, 100), ShutdownStep::Ended);
    assert_eq!(wait(LockProbe::NoFile, 100), ShutdownStep::NoFile);
    assert_eq!(wait(LockProbe::Unknown, 100), ShutdownStep::Unknown);
    assert_eq!(wait(LockProbe::HeldByOther, 100), ShutdownStep::TryAgain);
    assert_eq!(
        wait(LockProbe::HeldByOther, 100 + SERVICE_SHUTDOWN_TIMEOUT_MILLIS),
        ShutdownStep::TimedOut
    );
}

#[test]
fn a_configuration_of_the_onion_client_is_checked() {
    let config = TorTransportConfig {
        state_dir: "/state".to_owned(),
        cache_dir: "/cache".to_owned(),
        arti_config_file: None,
        max_inbound_streams: 8,
    };
    let plain = || ArtiStorage {
        root_is_table: true,
        storage_is_table: true,
        state_dir: PathSetting::Absent,
        cache_dir: PathSetting::Expanded("/other".to_owned()),
        keystore_is_table: true,
        primary_is_table: true,
        kind: Setting::Text("ephemeral".to_owned()),
    };
    assert_eq!(
        effective_storage(&config, &plain()),
        Ok(("/state".to_owned(), "/other".to_owned()))
    );
    let refused = |storage: ArtiStorage| effective_storage(&config, &storage).err().unwrap();
    assert_eq!(
        refused(ArtiStorage { root_is_table: false, ..plain() }),
        ArtiConfigError::RootNotTable
    );
    assert_eq!(
        refused(ArtiStorage { storage_is_table: false, ..plain() }),
        ArtiConfigError::StorageNotTable
    );
    assert_eq!(
        refused(ArtiStorage { state_dir: PathSetting::NotText, ..plain() }),
        ArtiConfigError::StateDirNotText
    );
    assert_eq!(
        refused(ArtiStorage { state_dir: PathSetting::Unexpandable, ..plain() }),
        ArtiConfigError::StateDirUnexpandable
    );
    assert_eq!(
        refused(ArtiStorage { cache_dir: PathSetting::NotText, ..plain() }),
        ArtiConfigError::CacheDirNotText
    );
    assert_eq!(
        refused(ArtiStorage { cache_dir: PathSetting::Unexpandable, ..plain() }),
        ArtiConfigError::CacheDirUnexpandable
    );
    assert_eq!(
        refused(ArtiStorage { cache_dir: PathSetting::Expanded("/state".to_owned()), ..plain() }),
        ArtiConfigError::SameDirectories
    );
    assert_eq!(
        refused(ArtiStorage { keystore_is_table: false, ..plain() }),
        ArtiConfigError::KeystoreNotTable
    );
    assert_eq!(
        refused(ArtiStorage { primary_is_table: false, ..plain() }),
        ArtiConfigError::PrimaryNotTable
    );
    assert_eq!(
        refused(ArtiStorage { kind: Setting::Text("disk".to_owned()), ..plain() }),
        ArtiConfigError::KeystoreNotEphemeral
    );
    assert_eq!(
        refused(ArtiStorage { kind: Setting::Other, ..plain() }),
        ArtiConfigError::KeystoreNotEphemeral
    );
}

#[test]
fn paths_are_compared_by_their_components() {
    for (text, components) in [
        ("/srv/arti", vec!["/", "srv", "arti"]),
        ("/srv/arti/", vec!["/", "srv", "arti"]),
        ("//srv//arti/.", vec!["/", "srv", "arti"]),
        ("/./srv/./arti", vec!["/", "srv", "arti"]),
        ("srv/../arti", vec!["srv", "..", "arti"]),
        ("./srv", vec![".", "srv"]),
        (".", vec!["."]),
        (".srv", vec![".srv"]),
        ("/", vec!["/"]),
        ("", vec![]),
    ] {
        assert_eq!(components_of(text), components, "{text}");
        let outside: Vec<_> = std::path::Path::new(text)
            .components()
            .map(|component| component.as_os_str().to_str().unwrap())
            .collect();
        assert_eq!(outside, components, "{text}");
    }
    for (a, b) in [
        ("/srv/arti", "/srv/arti/"),
        ("/srv/arti", "/srv//arti"),
        ("/srv/arti", "/srv/./arti"),
        ("/srv/arti", "srv/arti"),
        ("srv", "./srv"),
        ("/srv/a/../arti", "/srv/arti"),
        ("/srv/arti", "/srv/Arti"),
    ] {
        assert_eq!(same_path(a, b), std::path::Path::new(a) == std::path::Path::new(b), "{a} {b}");
    }
    let same = |state: &str, cache: &str| {
        let config = TorTransportConfig {
            state_dir: state.to_owned(),
            cache_dir: cache.to_owned(),
            arti_config_file: None,
            max_inbound_streams: 8,
        };
        load_arti_config(&config, Some(""), None, None).err()
    };
    assert_eq!(same("/srv/arti", "/srv/arti/"), Some(ArtiConfigError::SameDirectories));
    assert_eq!(same("/srv/arti", "/srv//./arti"), Some(ArtiConfigError::SameDirectories));
    assert_eq!(same("/srv/arti", "/srv/cache"), None);
}

#[test]
fn the_key_of_an_onion_service_is_that_of_the_node() {
    let seed: [u8; 32] = [
        0x9d, 0x61, 0xb1, 0x9d, 0xef, 0xfd, 0x5a, 0x60, 0xba, 0x84, 0x4a, 0xf4, 0x92, 0xec, 0x2c,
        0xc4, 0x44, 0x49, 0xc5, 0x69, 0x7b, 0x32, 0x69, 0x19, 0x70, 0x3b, 0xac, 0x03, 0x1c, 0xae,
        0x7f, 0x60,
    ];
    let key: [u8; 32] = [
        0xd7, 0x5a, 0x98, 0x01, 0x82, 0xb1, 0x0a, 0xb7, 0xd5, 0x4b, 0xfe, 0xd3, 0xc9, 0x64, 0x07,
        0x3a, 0x0e, 0xe1, 0x72, 0xf3, 0xda, 0xa6, 0x23, 0x25, 0xaf, 0x02, 0x1a, 0x68, 0xf7, 0x07,
        0x51, 0x1a,
    ];
    assert_eq!(check_service(&seed, &Id32(key)), Ok(()));
    assert_eq!(check_service(&seed, &Id32(seed)), Err(LaunchError::OtherIdentity));
}

fn tor_config() -> TorTransportConfig {
    TorTransportConfig {
        state_dir: "/state".to_owned(),
        cache_dir: "/cache".to_owned(),
        arti_config_file: None,
        max_inbound_streams: 8,
    }
}

fn refused_document(document: &str) -> ArtiConfigError {
    load_arti_config(&tor_config(), Some(document), Some("/expanded".to_owned()), None)
        .err()
        .unwrap()
}

#[test]
fn a_client_without_a_file_takes_the_configured_directories() {
    let loaded = load_arti_config(&tor_config(), None, None, None).unwrap();
    assert!(loaded.document.is_none());
    assert_eq!(loaded.state_dir, "/state");
    assert_eq!(loaded.cache_dir, "/cache");
}

#[test]
fn a_document_of_the_client_is_completed() {
    let document = "[storage]\nstate_dir = \"${HOME}/tor\"\n[logging]\nconsole = \"info\"\n";
    assert_eq!(configured_path(document, "state_dir"), Some("${HOME}/tor".to_owned()));
    assert_eq!(configured_path(document, "cache_dir"), None);
    let loaded =
        load_arti_config(&tor_config(), Some(document), Some("/home/tor".to_owned()), None).unwrap();
    assert_eq!(loaded.state_dir, "/home/tor");
    assert_eq!(loaded.cache_dir, "/cache");
    let text = loaded.document.unwrap();
    assert_ne!(text, document);
    let parsed: toml::Table = toml::from_str(&text).unwrap();
    let expected: toml::Table = toml::from_str(
        "[logging]\nconsole = \"info\"\n[storage]\nstate_dir = \"${HOME}/tor\"\n\
         cache_dir = \"/cache\"\n[storage.keystore.primary]\nkind = \"ephemeral\"\n",
    )
    .unwrap();
    assert_eq!(parsed, expected);
    assert_eq!(configured_path(&text, "cache_dir"), Some("/cache".to_owned()));
    let empty = load_arti_config(&tor_config(), Some(""), None, None).unwrap();
    assert_eq!(empty.state_dir, "/state");
    assert_eq!(empty.cache_dir, "/cache");
    let text = empty.document.unwrap();
    assert_eq!(configured_path(&text, "state_dir"), Some("/state".to_owned()));
}

#[test]
fn documents_of_the_client_are_refused() {
    assert_eq!(refused_document("= 1"), ArtiConfigError::NotToml);
    assert_eq!(refused_document("storage = 1"), ArtiConfigError::StorageNotTable);
    assert_eq!(refused_document("[storage]\nstate_dir = 1"), ArtiConfigError::StateDirNotText);
    assert_eq!(refused_document("[storage]\ncache_dir = []"), ArtiConfigError::CacheDirNotText);
    assert_eq!(
        refused_document("[storage]\ncache_dir = \"${NONE}\""),
        ArtiConfigError::CacheDirUnexpandable
    );
    assert_eq!(
        load_arti_config(&tor_config(), Some("[storage]\nstate_dir = \"x\""), None, None).err(),
        Some(ArtiConfigError::StateDirUnexpandable)
    );
    assert_eq!(
        load_arti_config(
            &tor_config(),
            Some("[storage]\nstate_dir = \"x\""),
            Some("/cache".to_owned()),
            None
        )
        .err(),
        Some(ArtiConfigError::SameDirectories)
    );
    assert_eq!(refused_document("[storage]\nkeystore = 1"), ArtiConfigError::KeystoreNotTable);
    assert_eq!(
        refused_document("[storage.keystore]\nprimary = \"x\""),
        ArtiConfigError::PrimaryNotTable
    );
    assert_eq!(
        refused_document("[storage.keystore.primary]\nkind = \"native\""),
        ArtiConfigError::KeystoreNotEphemeral
    );
    assert_eq!(
        refused_document("[storage.keystore.primary]\nkind = true"),
        ArtiConfigError::KeystoreNotEphemeral
    );
}

#[test]
fn texts_are_put_into_tables() {
    let path = |names: &[&str]| -> Vec<String> { names.iter().map(|name| name.to_string()).collect() };
    let mut table: toml::Table = toml::from_str("a = 1\n[b]\nc = \"d\"\n").unwrap();
    assert!(!set_text(&mut table, &path(&["a"]), "x", "y"));
    assert!(!set_text(&mut table, &path(&["b", "c"]), "x", "y"));
    assert_eq!(table, toml::from_str::<toml::Table>("a = 1\n[b]\nc = \"d\"\n").unwrap());
    assert!(set_text(&mut table, &path(&["b", "e", "f"]), "x", "y"));
    assert!(set_text(&mut table, &path(&[]), "a", "z"));
    assert_eq!(
        table,
        toml::from_str::<toml::Table>("a = \"z\"\n[b]\nc = \"d\"\n[b.e.f]\nx = \"y\"\n").unwrap()
    );
    let found = |names: &[&str]| find_field(&table, &path(names));
    assert!(matches!(found(&["b", "e", "f", "x"]), Some(Field::Text(text)) if text == "y"));
    assert!(matches!(found(&["b", "e"]), Some(Field::Table(_))));
    assert!(found(&["b", "c", "d"]).is_none());
    assert!(found(&["c"]).is_none());
    let mut table: toml::Table = toml::from_str("a = 1\n").unwrap();
    assert!(matches!(find_field(&table, &path(&["a"])), Some(Field::Other(_))));
    assert!(table_entry(&mut table, "a").is_none());
    assert!(table_entry(&mut table, "b").unwrap().is_empty());
    assert_eq!(table, toml::from_str::<toml::Table>("a = 1\n[b]\n").unwrap());
}
