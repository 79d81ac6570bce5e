//! Records of the DHT, recovery, shards and checkpoints.

use mb_node::address::{Multiaddr, PeerId};
use mb_node::catalog::{
    checked_catalog_page_count, split_pages, CatalogLimits, PageError,
};
use mb_node::commit::{
    acknowledgement_matches, already_committed, check_backup_job, check_prepared_revision,
    coding_roles, filler_ordinals, next_generation, next_revisions, order_backup_peers,
    order_direct_peers, BackupJob, CommitError, PreparedRevision, SectorRef,
    StorageAcknowledgement, StorageRequest,
};
use mb_node::dht::{
    insert_sequence_hash, next_sequence_floor, published_addresses, relay_members,
    valid_endpoint_values, SequenceError, SignedBundle, SignedEndpoints,
};
use mb_node::dht_recovery::{bundle_answer, kept_candidate, BundleAnswer};
use mb_node::endpoints::EndpointLimits;
use mb_node::exchange::{
    exchange_guild_endpoints_once, refresh_guild_endpoints, EndpointRoundAction,
    EndpointRoundError, EndpointRoundEvent,
};
use mb_node::hashing::{content_hash, endpoint_record_key};
use mb_node::ids::Id32;
use mb_node::paging::{
    fetch_p2p_checkpoint, fetch_p2p_revision, publish_p2p_checkpoint_object, CheckpointAction,
    CheckpointEvent, RevisionAction, RevisionEvent, ServedPage, UploadAction,
};
use mb_node::publication::{
    endpoint_sequence_floor, job_failure, members_to_ask, provider_answer, providers_to_ask,
    recovery_record_id, recovery_sequence_floor, recovery_step, retained_recovery_bundles,
    roster_endpoints, select_endpoint_record, select_recovery_bundle, selected_bundle, JobFailure,
    ProviderAnswer, ProviderRound, RecoveryStep, RetainedError, RetainedRecord,
    MAX_EXCHANGED_ENDPOINT_RECORDS, RECOVERY_DISCOVERY_TIMEOUT_MILLIS,
};
use mb_node::recovery::{
    certified_candidates, choose_recovery_head, confirmations, decode_recovery_candidate,
    head_members, heads_at, latest_revision, recovered_endpoint_floor, recovery_generations,
    state_matches, usable_endpoints, validate_ready_bundle, CandidateError, RecoveryCandidate,
    RecoveryHead, RecoveryLocator, RevisionFacts, SelectedBundle, ServedState,
};
use mb_node::shards::{
    direct_fetch_plan, local_revision_ciphertexts, local_shard, locate_sector, FetchStep,
    GroupRoles, RevisionShardError, reconstruct_shard_from_peers, ShardKey, ShardRole,
};
use mb_node::table::{KeySet, Table};
use mb_node::tor::NodeId;

const LIMITS: EndpointLimits = EndpointLimits { per_peer: 8, bytes: 512 };
const NOW: u64 = 1_700_000_000;

/// The SHA3-256 hash, from which the checksum of an onion address is taken.
fn sha3_256(input: &[u8]) -> [u8; 32] {
    const ROUNDS: [u64; 24] = [
        0x0000000000000001, 0x0000000000008082, 0x800000000000808a, 0x8000000080008000,
        0x000000000000808b, 0x0000000080000001, 0x8000000080008081, 0x8000000000008009,
        0x000000000000008a, 0x0000000000000088, 0x0000000080008009, 0x000000008000000a,
        0x000000008000808b, 0x800000000000008b, 0x8000000000008089, 0x8000000000008003,
        0x8000000000008002, 0x8000000000000080, 0x000000000000800a, 0x800000008000000a,
        0x8000000080008081, 0x8000000000008080, 0x0000000080000001, 0x8000000080008008,
    ];
    let rate = 136;
    let mut padded = input.to_vec();
    padded.push(0x06);
    while padded.len() % rate != 0 {
        padded.push(0);
    }
    let last = padded.len() - 1;
    padded[last] |= 0x80;
    let mut lanes = [[0_u64; 5]; 5];
    for block in padded.chunks(rate) {
        for (index, chunk) in block.chunks(8).enumerate() {
            lanes[index % 5][index / 5] ^= u64::from_le_bytes(chunk.try_into().unwrap());
        }
        for constant in ROUNDS {
            let mut columns = [0_u64; 5];
            for x in 0..5 {
                columns[x] = lanes[x].iter().fold(0, |sum, lane| sum ^ lane);
            }
            for x in 0..5 {
                let mixed = columns[(x + 4) % 5] ^ columns[(x + 1) % 5].rotate_left(1);
                for y in 0..5 {
                    lanes[x][y] ^= mixed;
                }
            }
            let (mut x, mut y, mut current) = (1, 0, lanes[1][0]);
            for turn in 0..24_u32 {
                (x, y) = (y, (2 * x + 3 * y) % 5);
                let rotated = current.rotate_left((turn + 1) * (turn + 2) / 2 % 64);
                current = lanes[x][y];
                lanes[x][y] = rotated;
            }
            for y in 0..5 {
                let row = [lanes[0][y], lanes[1][y], lanes[2][y], lanes[3][y], lanes[4][y]];
                for x in 0..5 {
                    lanes[x][y] = row[x] ^ (!row[(x + 1) % 5] & row[(x + 2) % 5]);
                }
            }
            lanes[0][0] ^= constant;
        }
    }
    let mut hash = [0_u8; 32];
    for (index, chunk) in hash.chunks_mut(8).enumerate() {
        chunk.copy_from_slice(&lanes[index % 5][index / 5].to_le_bytes());
    }
    hash
}

fn key_of(seed: [u8; 32]) -> [u8; 32] {
    let pair = libp2p::identity::Keypair::ed25519_from_bytes(seed).unwrap();
    pair.public().try_into_ed25519().unwrap().to_bytes()
}

fn node(seed: u8) -> NodeId {
    let key = key_of([seed; 32]);
    let mut material = b".onion checksum".to_vec();
    material.extend_from_slice(&key);
    material.push(3);
    let hash = sha3_256(&material);
    NodeId { key, onion_checksum: [hash[0], hash[1]] }
}

fn peer(seed: u8) -> PeerId {
    node(seed).peer_id().unwrap()
}

fn address(text: &str) -> Multiaddr {
    Multiaddr::parse(text).unwrap()
}

fn key(seed: u8) -> Id32 {
    Id32(node(seed).key)
}

fn id(byte: u8) -> Id32 {
    Id32([byte; 32])
}

fn endpoints(seed: u8, sequence: u64, port: u16) -> Option<SignedEndpoints> {
    let text = format!("/ip4/127.0.0.1/udp/{port}/quic-v1/p2p/{}", peer(seed).text());
    let bytes = format!("{sequence} {text}").into_bytes();
    Some(SignedEndpoints {
        signature_valid: true,
        signer: key(seed),
        format_version: 1,
        publisher: key(seed),
        sequence,
        expires_at_unix_seconds: NOW + 300,
        endpoints: vec![text],
        bytes,
    })
}

fn bundle(publisher: u8, subject: u8, sequence: u64, content: u8) -> SignedBundle {
    SignedBundle {
        signature_valid: true,
        signer: key(publisher),
        format_version: 1,
        subject: key(subject),
        publisher: key(publisher),
        sequence,
        expires_at_unix_seconds: NOW + 300,
        bytes: vec![content; 4],
    }
}

fn locator(publisher: u8, subject: u8) -> RecoveryLocator {
    RecoveryLocator {
        signature_valid: true,
        signer: key(publisher),
        format_version: 1,
        subject: key(subject),
        publisher: key(publisher),
        guild_id: id(1),
        checkpoint_hash: id(2),
        checkpoint_generation: 3,
        expires_at_unix_seconds: NOW + 300,
        endpoints: vec![format!(
            "/ip4/127.0.0.1/udp/4000/quic-v1/p2p/{}",
            peer(publisher).text()
        )],
        subject_endpoint_sequence_floor: 5,
    }
}

#[test]
fn dht_endpoint_selection_rejects_forks_and_prefers_fresh_sequences() {
    let publisher = key(77);
    let select = |records: Vec<Option<SignedEndpoints>>| {
        select_endpoint_record(&LIMITS, &publisher, &records, NOW)
    };
    let selected = select(vec![endpoints(77, 1, 1), endpoints(77, 2, 2)]).unwrap().unwrap();
    assert_eq!(selected, endpoints(77, 2, 2).unwrap().bytes);
    assert_eq!(
        select(vec![endpoints(77, 3, 3), endpoints(77, 3, 4)]),
        Err(SequenceError::Forked)
    );
    assert_eq!(
        select(vec![endpoints(77, 4, 5), endpoints(77, 3, 3), endpoints(77, 3, 4)]),
        Err(SequenceError::Forked)
    );
}

#[test]
fn only_records_that_count_are_selected() {
    let publisher = key(77);
    let select = |record: SignedEndpoints| {
        select_endpoint_record(&LIMITS, &publisher, &vec![Some(record)], NOW)
    };
    let good = || endpoints(77, 1, 1).unwrap();
    assert!(select(good()).unwrap().is_some());
    assert_eq!(select(SignedEndpoints { signature_valid: false, ..good() }), Ok(None));
    assert_eq!(select(SignedEndpoints { signer: key(78), ..good() }), Ok(None));
    assert_eq!(select(SignedEndpoints { sequence: 0, ..good() }), Ok(None));
    assert_eq!(select(SignedEndpoints { expires_at_unix_seconds: NOW, ..good() }), Ok(None));
    assert_eq!(select(SignedEndpoints { endpoints: Vec::new(), ..good() }), Ok(None));
    assert_eq!(
        select_endpoint_record(&LIMITS, &publisher, &vec![None], NOW),
        Ok(None)
    );
    assert!(!valid_endpoint_values(&LIMITS, &publisher, &vec![]));
    let twice = good().endpoints[0].clone();
    assert!(!valid_endpoint_values(&LIMITS, &publisher, &vec![twice.clone(), twice]));
}

#[test]
fn recovery_bundles_are_selected_by_provider_subject_and_number() {
    let provider = peer(2).text();
    let select = |records: Vec<Option<SignedBundle>>| {
        select_recovery_bundle(&provider, &key(1), &records, NOW)
    };
    assert_eq!(
        select(vec![Some(bundle(2, 1, 1, 7)), None, Some(bundle(2, 1, 2, 8))]),
        Ok(Some(vec![8; 4]))
    );
    assert_eq!(
        select(vec![Some(bundle(2, 1, 1, 7)), Some(bundle(2, 1, 1, 8))]),
        Err(SequenceError::Forked)
    );
    assert_eq!(select(vec![Some(bundle(3, 1, 1, 7)), Some(bundle(2, 4, 1, 8))]), Ok(None));
}

#[test]
fn the_next_number_is_above_all_that_are_known() {
    assert_eq!(endpoint_sequence_floor(&key(77), &vec![]), Ok(1));
    assert_eq!(
        endpoint_sequence_floor(&key(77), &vec![endpoints(77, 4, 1), endpoints(77, 9, 1)]),
        Ok(10)
    );
    assert_eq!(
        endpoint_sequence_floor(&key(77), &vec![endpoints(77, u64::MAX, 1)]),
        Err(SequenceError::Exhausted)
    );
    assert_eq!(
        endpoint_sequence_floor(&key(77), &vec![endpoints(77, 4, 1), endpoints(77, 4, 2)]),
        Err(SequenceError::Forked)
    );
    assert_eq!(
        recovery_sequence_floor(&peer(2).text(), &key(1), &vec![Some(bundle(2, 1, 6, 0))]),
        Ok(7)
    );
    assert_eq!(next_sequence_floor(None), Ok(1));
    let mut observed: Table<u64, Id32> = Table::new();
    assert_eq!(insert_sequence_hash(&mut observed, 1, id(1)), Ok(()));
    assert_eq!(insert_sequence_hash(&mut observed, 1, id(1)), Ok(()));
    assert_eq!(insert_sequence_hash(&mut observed, 1, id(2)), Err(SequenceError::Forked));
}

#[test]
fn kept_records_are_used_only_under_their_own_provider() {
    let provider = peer(2).text();
    let hash = content_hash(provider.as_bytes());
    let record = |provider_hash: Id32, content: Option<SignedBundle>| RetainedRecord {
        provider_hash,
        bundle: content,
    };
    let kept = |records: Vec<RetainedRecord>| retained_recovery_bundles(&key(1), &records, NOW);
    assert_eq!(
        kept(vec![record(hash, Some(bundle(2, 1, 1, 7)))]),
        Ok(vec![(provider.clone(), 0)])
    );
    assert_eq!(
        kept(vec![
            record(hash, Some(bundle(2, 4, 1, 7))),
            record(hash, Some(bundle(2, 1, 2, 7)))
        ]),
        Ok(vec![(provider.clone(), 1)])
    );
    assert_eq!(
        kept(vec![record(id(9), Some(bundle(2, 1, 1, 7)))]),
        Err(RetainedError::OtherProvider)
    );
    assert_eq!(kept(vec![record(hash, None)]), Err(RetainedError::Undecodable));
    let record_id = recovery_record_id(&key(1), &provider);
    assert_eq!(record_id[..32], key(1).0);
    assert_eq!(record_id[32..], *blake3::hash(provider.as_bytes()).as_bytes());
}

#[test]
fn a_round_over_providers_counts_each_publisher_once() {
    let mut round = ProviderRound::new();
    round.answer("a".to_owned(), ProviderAnswer::Conflicting);
    round.answer("b".to_owned(), ProviderAnswer::Nothing);
    round.answer("c".to_owned(), ProviderAnswer::Unfit { publisher: id(3) });
    round.answer(
        "d".to_owned(),
        ProviderAnswer::Fit { publisher: id(4), expires_at_unix_seconds: 9 },
    );
    assert!(!round.wants_kept(&"a".to_owned(), &id(1)));
    assert!(round.wants_kept(&"c".to_owned(), &id(3)));
    assert!(!round.wants_kept(&"d".to_owned(), &id(4)));
    round.keep(&"a".to_owned(), id(1), 5, true);
    round.keep(&"c".to_owned(), id(3), 6, true);
    round.keep(&"c".to_owned(), id(3), 7, true);
    round.keep(&"e".to_owned(), id(5), 8, false);
    assert_eq!(round.confirmations, vec![(id(4), 9), (id(3), 6)]);
}

#[test]
fn the_node_asks_everybody_but_itself() {
    let texts = |list: &[&str]| list.iter().map(|text| (*text).to_owned()).collect::<Vec<_>>();
    assert_eq!(
        providers_to_ask(&texts(&["a", "b", "a", "c"]), &"a".to_owned()),
        texts(&["b", "c"])
    );
    assert_eq!(members_to_ask(true, &vec![id(1), id(2), id(3)], &id(2)), vec![id(1), id(3)]);
    assert!(members_to_ask(false, &vec![id(1)], &id(2)).is_empty());
}

fn own_endpoints(seed: u8, sequence: u64) -> SignedEndpoints {
    SignedEndpoints {
        signature_valid: true,
        signer: key(seed),
        format_version: 1,
        publisher: key(seed),
        sequence,
        expires_at_unix_seconds: NOW + 60,
        endpoints: vec![format!("/ip4/127.0.0.1/udp/{seed}/quic-v1/p2p/{}", peer(seed).text())],
        bytes: vec![seed, sequence as u8],
    }
}

fn selected(seed: u8, record: Option<SignedEndpoints>) -> EndpointRoundEvent {
    let onion_checksum = node(seed).onion_checksum;
    EndpointRoundEvent::Selected { record, onion_checksum, now: NOW }
}

#[test]
fn members_tell_each_other_where_they_are() {
    let own = vec!["/memory/1".to_owned()];
    let mut round = exchange_guild_endpoints_once(LIMITS, key(1), &own, NOW).ok().unwrap();
    assert!(matches!(
        round.next(),
        EndpointRoundAction::Renew { expires_at_unix_seconds } if expires_at_unix_seconds == NOW + 900
    ));
    round.take(EndpointRoundEvent::Renewed);
    assert!(matches!(round.next(), EndpointRoundAction::ReadGuild));
    let members = vec![key(3), key(1), key(2), key(3)];
    round.take(EndpointRoundEvent::Guild { active: true, members });
    let mut asked = Vec::new();
    let mut applied = Vec::new();
    loop {
        match round.next() {
            EndpointRoundAction::AskMember { member } => {
                asked.push(member);
                if member == key(2) {
                    round.take(EndpointRoundEvent::Exchanged {
                        records: vec![own_endpoints(9, 1), own_endpoints(3, 4), own_endpoints(2, 5)],
                        now: NOW,
                    });
                } else {
                    let records = (0..=MAX_EXCHANGED_ENDPOINT_RECORDS)
                        .map(|number| own_endpoints(2, number as u64))
                        .collect();
                    round.take(EndpointRoundEvent::Exchanged { records, now: NOW });
                }
            }
            EndpointRoundAction::Observe { publisher } => {
                assert_eq!(round.tasks()[0].observations.len(), 1);
                if publisher == key(3) {
                    assert_eq!(round.tasks()[0].observations[0].sequence, 4);
                    round.take(selected(3, Some(own_endpoints(3, 7))));
                } else {
                    round.take(EndpointRoundEvent::Failed);
                }
            }
            EndpointRoundAction::Apply { publisher, expires_at_unix_seconds } => {
                assert_eq!(expires_at_unix_seconds, NOW + 60);
                assert_eq!(round.addresses()[0].text(), own_endpoints(3, 7).endpoints[0]);
                applied.push(publisher);
                round.take(EndpointRoundEvent::Failed);
            }
            EndpointRoundAction::Done => break,
            other => panic!("{other:?}"),
        }
    }
    let mut wanted = vec![key(2), key(3)];
    wanted.sort_by_key(|key| key.0);
    assert_eq!(asked, wanted);
    assert_eq!(applied, vec![key(3)]);
    assert_eq!(
        exchange_guild_endpoints_once(LIMITS, key(1), &vec![], NOW).err(),
        Some(EndpointRoundError::NoEndpoint)
    );
    assert_eq!(
        exchange_guild_endpoints_once(LIMITS, key(1), &own, u64::MAX).err(),
        Some(EndpointRoundError::Expiry)
    );
}

#[test]
fn members_are_looked_up_in_the_dht() {
    let begun = || {
        let mut round = refresh_guild_endpoints(LIMITS, key(1));
        let members = vec![key(3), key(1), key(2)];
        round.take(EndpointRoundEvent::Guild { active: true, members });
        round
    };
    let mut round = begun();
    assert!(matches!(
        round.next(),
        EndpointRoundAction::LookUp { member, key: under }
            if member == key(3) && under == endpoint_record_key(&peer(3).text())
    ));
    round.take(EndpointRoundEvent::Failed);
    assert!(matches!(round.next(), EndpointRoundAction::LookUp { member, .. } if member == key(2)));
    let records = vec![None, Some(own_endpoints(3, 1)), Some(own_endpoints(2, 6))];
    round.take(EndpointRoundEvent::Found { records, now: NOW });
    assert!(
        matches!(round.next(), EndpointRoundAction::Observe { publisher } if publisher == key(2))
    );
    assert_eq!(round.tasks()[0].observations.len(), 1);
    round.take(selected(2, Some(own_endpoints(2, 6))));
    assert!(
        matches!(round.next(), EndpointRoundAction::Apply { publisher, .. } if publisher == key(2))
    );
    round.take(EndpointRoundEvent::Applied);
    assert!(matches!(round.next(), EndpointRoundAction::Done));

    let mut round = begun();
    round.take(EndpointRoundEvent::Found { records: vec![], now: NOW });
    round.take(selected(3, Some(own_endpoints(3, 1))));
    round.take(EndpointRoundEvent::Failed);
    assert!(matches!(
        round.next(),
        EndpointRoundAction::Failed(EndpointRoundError::Outside)
    ));
    let mut round = begun();
    round.take(EndpointRoundEvent::Found { records: vec![], now: NOW });
    round.take(selected(3, Some(own_endpoints(2, 1))));
    assert!(matches!(round.next(), EndpointRoundAction::LookUp { member, .. } if member == key(2)));
    let mut round = begun();
    round.take(EndpointRoundEvent::Applied);
    assert!(matches!(
        round.next(),
        EndpointRoundAction::Failed(EndpointRoundError::OutOfOrder)
    ));
    let mut round = refresh_guild_endpoints(LIMITS, key(1));
    round.take(EndpointRoundEvent::Guild { active: false, members: vec![key(2)] });
    assert!(matches!(round.next(), EndpointRoundAction::Done));

    let nobody = (0..=255).map(id).find(|id| PeerId::from_key(&id.0).is_none()).unwrap();
    let mut round = refresh_guild_endpoints(LIMITS, key(1));
    round.take(EndpointRoundEvent::Guild { active: true, members: vec![key(2), nobody] });
    assert!(matches!(
        round.next(),
        EndpointRoundAction::Failed(EndpointRoundError::NoIdentity)
    ));
}

#[test]
fn failures_of_jobs_and_of_recovery_are_told_apart() {
    assert_eq!(
        job_failure("peer said: parity storage budget is exhausted (5 bytes)"),
        JobFailure::Failed
    );
    assert_eq!(job_failure("connection lost"), JobFailure::Deferred);
    assert_eq!(recovery_step(false, 0, 0), RecoveryStep::GiveUp);
    assert_eq!(recovery_step(true, 5, 5), RecoveryStep::Retry);
    assert_eq!(
        recovery_step(true, 5, 5 + RECOVERY_DISCOVERY_TIMEOUT_MILLIS),
        RecoveryStep::TimedOut
    );
}

#[test]
fn the_current_record_goes_before_the_recovery_record() {
    let list = |text: &str| vec![text.to_owned()];
    let both = roster_endpoints(Some((list("old"), 1)), Some((list("new"), 2)));
    assert_eq!(both.endpoints, list("new"));
    assert_eq!(both.expires_at_unix_seconds, Some(2));
    let named = roster_endpoints(Some((list("old"), 1)), None);
    assert_eq!(named.endpoints, list("old"));
    assert_eq!(named.expires_at_unix_seconds, Some(1));
    assert_eq!(roster_endpoints(None, None).expires_at_unix_seconds, None);
}

#[test]
fn published_addresses_must_be_those_of_their_publisher() {
    let own = format!("/ip4/127.0.0.1/udp/1/quic-v1/p2p/{}", peer(1).text());
    let other = format!("/ip4/127.0.0.1/udp/1/quic-v1/p2p/{}", peer(2).text());
    assert_eq!(published_addresses(&node(1), &vec![own.clone()]).unwrap()[0].text(), own);
    assert!(published_addresses(&node(1), &vec![own, other]).is_none());
    assert!(published_addresses(&node(1), &vec!["nonsense".to_owned()]).is_none());
    let members = relay_members(true, &vec![key(1), key(2)]).unwrap();
    assert!(members.contains(peer(1)) && members.contains(peer(2)));
    assert!(relay_members(false, &vec![key(1)]).unwrap().is_empty());
    let (texts, addresses) = usable_endpoints(&vec!["nonsense".to_owned(), "/memory/1".to_owned()]);
    assert_eq!(texts, vec!["/memory/1".to_owned()]);
    assert_eq!(addresses[0].text(), "/memory/1");
    assert_eq!(address("/memory/1").text(), "/memory/1");
}

#[test]
fn a_recovery_record_must_match_what_was_sealed_in_it() {
    let provider = peer(2).text();
    let check = |sealed: &SignedBundle, opened: Option<&RecoveryLocator>| {
        decode_recovery_candidate(&LIMITS, &key(1), &provider, sealed, opened, NOW)
    };
    let good = bundle(2, 1, 1, 0);
    assert_eq!(check(&good, Some(&locator(2, 1))), Ok(()));
    assert_eq!(check(&bundle(2, 1, 0, 0), Some(&locator(2, 1))), Err(CandidateError::Bundle));
    assert_eq!(check(&bundle(3, 1, 1, 0), Some(&locator(2, 1))), Err(CandidateError::Bundle));
    assert_eq!(check(&good, None), Err(CandidateError::Locator));
    assert_eq!(check(&good, Some(&locator(3, 1))), Err(CandidateError::Locator));
    let early = RecoveryLocator { expires_at_unix_seconds: NOW + 1, ..locator(2, 1) };
    assert_eq!(check(&good, Some(&early)), Err(CandidateError::Locator));

    let ready = |hash: Id32, authority: bool| {
        validate_ready_bundle(
            &LIMITS,
            &key(1),
            &provider,
            &hash,
            &good,
            Some(&locator(2, 1)),
            authority,
            NOW,
        )
    };
    assert_eq!(ready(id(2), true), Ok(()));
    assert_eq!(ready(id(3), true), Err(CandidateError::Locator));
    assert_eq!(ready(id(2), false), Err(CandidateError::Authority));
}

#[test]
fn recovery_takes_the_latest_head_that_three_publishers_confirm() {
    let head = |generation: u64, hash: u8| RecoveryHead {
        generation,
        guild_id: id(1),
        checkpoint_hash: id(hash),
    };
    let says = |publisher: u8, of: RecoveryHead| RecoveryCandidate {
        publisher: id(publisher),
        head: of,
    };
    let candidates = vec![
        says(1, head(5, 5)),
        says(2, head(5, 5)),
        says(1, head(4, 4)),
        says(2, head(4, 4)),
        says(3, head(4, 4)),
        says(3, head(4, 4)),
        says(1, head(3, 3)),
        says(2, head(3, 3)),
        says(3, head(3, 3)),
    ];
    assert_eq!(recovery_generations(&candidates), vec![4, 3]);
    assert_eq!(confirmations(&candidates, &head(4, 4)), 3);
    assert_eq!(heads_at(&candidates, 5).len(), 1);
    let members = head_members(&candidates, &head(4, 4));
    assert_eq!(members.iter().map(|member| member.place).collect::<Vec<_>>(), vec![2, 3, 4]);
    let chosen = |certified: Vec<RecoveryHead>| choose_recovery_head(&vec![4, 3], &certified);
    assert!(chosen(vec![head(3, 3), head(4, 4)]).unwrap().unwrap().same(&head(4, 4)));
    assert!(chosen(vec![head(3, 3)]).unwrap().unwrap().same(&head(3, 3)));
    assert!(chosen(vec![]).unwrap().is_none());
    assert_eq!(chosen(vec![head(4, 4), head(4, 9)]).err(), Some(4));
    assert_eq!(certified_candidates(&vec![true, false, true, true]), Some(vec![0, 2, 3]));
    assert_eq!(certified_candidates(&vec![true, false, true]), None);
    assert_eq!(recovered_endpoint_floor(&vec![3, 9, 4]), 9);
    assert_eq!(recovered_endpoint_floor(&vec![]), 0);
}

#[test]
fn a_served_state_must_be_that_of_the_head() {
    let head = RecoveryHead { generation: 4, guild_id: id(1), checkpoint_hash: id(2) };
    let good = ServedState {
        genesis_valid: true,
        checkpoint_valid: true,
        genesis_guild_id: id(1),
        genesis_hash: id(3),
        checkpoint_genesis_hash: id(3),
        checkpoint_guild_id: id(1),
        checkpoint_generation: 4,
        checkpoint_hash: id(2),
        members_match: true,
    };
    assert!(state_matches(&good, &head));
    assert!(!state_matches(&ServedState { checkpoint_generation: 5, ..good }, &head));
    assert!(!state_matches(&ServedState { genesis_hash: id(4), ..good }, &head));
    assert!(!state_matches(&ServedState { members_match: false, ..good }, &head));
}

#[test]
fn the_latest_revision_of_the_owner_is_restored() {
    let facts = |owner: u8, sequence: u64| RevisionFacts {
        owner: id(owner),
        sequence,
        revision_id: u128::from(sequence),
    };
    let revisions = vec![facts(1, 3), facts(2, 9), facts(1, 5), facts(1, 5)];
    assert_eq!(latest_revision(&revisions, &id(1)), Some(3));
    assert_eq!(latest_revision(&revisions, &id(7)), None);
}

fn roles() -> Vec<ShardRole> {
    let information = |byte: u8| ShardRole::Information {
        owner: id(byte),
        sector_id: id(100 + byte),
        root: id(200 + byte),
    };
    let parity = |byte: u8| ShardRole::Parity { holder: id(byte), row: byte - 3, root: id(200 + byte) };
    vec![information(0), information(1), information(2), parity(3), parity(4)]
}

fn holders() -> Vec<Id32> {
    (0..5).map(id).collect()
}

#[test]
fn shards_are_gathered_over_rounds_until_there_are_three() {
    let mut deferred: KeySet<Id32> = KeySet::new();
    let mut fetch = reconstruct_shard_from_peers(roles(), 0, holders()).unwrap();
    let first = match fetch.next(&deferred) {
        FetchStep::Ask(asked) => asked,
        _ => panic!("nothing was asked for"),
    };
    assert_eq!(first, vec![1, 2, 3, 4]);
    assert!(!fetch.received(1, 7, 7, &id(201)));
    assert!(!fetch.received(2, 6, 7, &id(202)));
    assert!(!fetch.received(3, 7, 7, &id(9)));
    fetch.round_over(&mut deferred, &first);
    assert!(!deferred.contains(id(1)));
    assert!(deferred.contains(id(2)) && deferred.contains(id(3)) && deferred.contains(id(4)));
    let second = match fetch.next(&deferred) {
        FetchStep::Ask(asked) => asked,
        _ => panic!("nothing was asked for"),
    };
    assert_eq!(second, vec![2, 3, 4]);
    assert!(!fetch.received(2, 7, 7, &id(202)));
    assert!(fetch.received(4, 7, 7, &id(204)));
    fetch.round_over(&mut deferred, &second);
    assert!(matches!(fetch.next(&deferred), FetchStep::Rebuild));
    assert!(reconstruct_shard_from_peers(roles(), 5, holders()).is_none());
}

#[test]
fn the_gathering_of_shards_ends_after_three_rounds() {
    let mut deferred: KeySet<Id32> = KeySet::new();
    let mut fetch = reconstruct_shard_from_peers(roles(), 0, holders()).unwrap();
    for _ in 0..3 {
        let asked = match fetch.next(&deferred) {
            FetchStep::Ask(asked) => asked,
            _ => panic!("nothing was asked for"),
        };
        fetch.round_over(&mut deferred, &asked);
    }
    assert!(matches!(fetch.next(&deferred), FetchStep::Failed));
}

#[test]
fn shards_are_found_by_holder_and_by_sector() {
    assert_eq!(local_shard(&roles(), &id(3)), Some(3));
    assert_eq!(local_shard(&roles(), &id(9)), None);
    let groups = vec![GroupRoles { id: id(50), roles: roles() }];
    assert_eq!(locate_sector(&groups, &id(101), &id(201)), Some((0, 1)));
    assert_eq!(locate_sector(&groups, &id(101), &id(202)), None);
    let unhealthy: KeySet<Id32> = KeySet::new();
    let plan = direct_fetch_plan(&roles(), 0, &holders(), &unhealthy);
    assert!(!plan.contains(&0));

    let mut wanted: KeySet<Id32> = KeySet::new();
    wanted.insert(id(101));
    let mut recovered: Table<ShardKey, Vec<u8>> = Table::new();
    assert_eq!(
        local_revision_ciphertexts(&wanted, &groups, &recovered).err(),
        Some(RevisionShardError::MissingShard)
    );
    recovered.insert(ShardKey { group: id(50), index: 1 }, vec![1, 2, 3]);
    let found = local_revision_ciphertexts(&wanted, &groups, &recovered).ok().unwrap();
    assert_eq!(found.get(id(101)), Some(&vec![1, 2, 3]));
    wanted.insert(id(99));
    assert_eq!(
        local_revision_ciphertexts(&wanted, &groups, &recovered).err(),
        Some(RevisionShardError::MissingSector)
    );
}

#[test]
fn pages_are_put_together_again() {
    let limits = CatalogLimits { page_bytes: 4, max_pages: 3, max_bytes: 10 };
    let bytes: Vec<u8> = (0..10).collect();
    let pages = split_pages(&bytes, 4);
    assert_eq!(pages.iter().map(Vec::len).collect::<Vec<_>>(), vec![4, 4, 2]);
    assert_eq!(checked_catalog_page_count(&limits, 10), Some(3));
    assert_eq!(checked_catalog_page_count(&limits, 11), None);
    assert_eq!(checked_catalog_page_count(&limits, 0), None);
    let served = |index: usize, total: u32| ServedPage {
        total,
        hash: content_hash(&pages[index]),
        bytes: pages[index].clone(),
    };

    let peers = vec![id(1), id(2)];
    let mut upload =
        publish_p2p_checkpoint_object(limits, &bytes, peers.clone(), id(2)).ok().unwrap();
    let mut put = Vec::new();
    while let UploadAction::Put { peer, local, index, total, hash } = upload.next() {
        assert_eq!(total, 3);
        assert_eq!(hash, content_hash(&upload.pages()[index as usize]));
        assert_eq!(local, peer == id(2));
        put.push((index, peer.0[0]));
        upload.take(true);
    }
    assert_eq!(put, vec![(0, 1), (0, 2), (1, 1), (1, 2), (2, 1), (2, 2)]);
    assert!(matches!(upload.next(), UploadAction::Done));
    let mut upload =
        publish_p2p_checkpoint_object(limits, &bytes, peers.clone(), id(2)).ok().unwrap();
    upload.take(false);
    assert!(matches!(upload.next(), UploadAction::Failed(PageError::Outside)));
    assert_eq!(
        publish_p2p_checkpoint_object(limits, &vec![0; 11], peers, id(2)).err(),
        Some(PageError::Size)
    );

    let mut fetch = fetch_p2p_checkpoint(limits, id(9));
    for index in 0..3 {
        assert_eq!(fetch.next(), CheckpointAction::AskPage(index));
        fetch.take(CheckpointEvent::Page(served(index as usize, 3)));
    }
    assert_eq!(fetch.next(), CheckpointAction::Decode);
    assert_eq!(*fetch.bytes(), bytes);
    fetch.take(CheckpointEvent::Decoded { certified: true, hash: id(9) });
    assert_eq!(fetch.next(), CheckpointAction::Done);
    let failure = |events: Vec<CheckpointEvent>| {
        let mut fetch = fetch_p2p_checkpoint(limits, id(9));
        for event in events {
            fetch.take(event);
        }
        fetch.next()
    };
    let page = |index, total| CheckpointEvent::Page(served(index, total));
    assert_eq!(failure(vec![page(0, 4)]), CheckpointAction::Failed(PageError::FirstPage));
    assert_eq!(failure(vec![page(0, 3), page(1, 2)]), CheckpointAction::Failed(PageError::Page));
    let torn = ServedPage { hash: id(0), ..served(1, 3) };
    assert_eq!(
        failure(vec![page(0, 3), CheckpointEvent::Page(torn)]),
        CheckpointAction::Failed(PageError::Page)
    );
    assert_eq!(
        failure(vec![page(0, 1), CheckpointEvent::Decoded { certified: false, hash: id(9) }]),
        CheckpointAction::Failed(PageError::NotCertified)
    );
    assert_eq!(
        failure(vec![page(0, 1), CheckpointEvent::Decoded { certified: true, hash: id(8) }]),
        CheckpointAction::Failed(PageError::Object)
    );
    assert_eq!(
        failure(vec![CheckpointEvent::Failed]),
        CheckpointAction::Failed(PageError::Outside)
    );
    assert_eq!(
        failure(vec![CheckpointEvent::Decoded { certified: true, hash: id(9) }]),
        CheckpointAction::Failed(PageError::OutOfOrder)
    );

    let announced = content_hash(&bytes);
    let mut fetch = fetch_p2p_revision(limits, &id(1), &id(2), 3, announced);
    for index in 0..3 {
        assert_eq!(fetch.next(), RevisionAction::AskPage(index));
        fetch.take(RevisionEvent::Page(served(index as usize, 3)));
    }
    assert_eq!(fetch.next(), RevisionAction::Done);
    assert_eq!(*fetch.bytes(), bytes);
    let mut fetch = fetch_p2p_revision(limits, &id(1), &id(2), 2, announced);
    fetch.take(RevisionEvent::Page(served(0, 2)));
    fetch.take(RevisionEvent::Page(served(1, 2)));
    assert_eq!(fetch.next(), RevisionAction::Failed(PageError::Object));
    let mut fetch = fetch_p2p_revision(limits, &id(1), &id(1), 3, announced);
    assert_eq!(fetch.next(), RevisionAction::LoadLocal);
    fetch.take(RevisionEvent::Object(bytes.clone()));
    assert_eq!(fetch.next(), RevisionAction::Done);
    let mut fetch = fetch_p2p_revision(limits, &id(1), &id(1), 3, announced);
    fetch.take(RevisionEvent::Object(pages[0].clone()));
    assert_eq!(fetch.next(), RevisionAction::Failed(PageError::Object));
}

#[test]
fn a_backup_is_coded_over_five_members_with_its_owner_first() {
    let members = vec![id(5), id(3), id(4), id(1), id(2)];
    let order = order_backup_peers(&members, &id(4)).unwrap();
    let nodes: Vec<Id32> = order.iter().map(|member| member.node).collect();
    assert_eq!(nodes, vec![id(4), id(1), id(2), id(3), id(5)]);
    assert_eq!(
        order_backup_peers(&members, &id(9)).err(),
        Some(CommitError::OwnerNotMember)
    );
    assert_eq!(
        order_backup_peers(&vec![id(1), id(2)], &id(1)).err(),
        Some(CommitError::NotFivePeers)
    );
    let domains: Vec<String> = (0..5).map(|index| format!("rack {index}")).collect();
    assert!(order_direct_peers(&members, &domains, &id(1)).is_ok());
    let shared = vec!["rack".to_owned(); 5];
    assert_eq!(
        order_direct_peers(&members, &shared, &id(1)).err(),
        Some(CommitError::DuplicatePeers)
    );
    let sector = |byte: u8| SectorRef { id: id(byte), root: id(byte + 1) };
    let coded = coding_roles(&order, (sector(10), sector(20), sector(30)), (id(40), id(50)));
    assert_eq!(coded.len(), 5);
    assert_eq!(coded[0].holder(), id(4));
    assert_eq!(coded[4].root(), id(50));
    assert_eq!(filler_ordinals(0), (0, 1));
    assert_eq!(filler_ordinals(7), (14, 15));
}

#[test]
fn a_job_is_done_by_its_coordinator_for_the_revision_it_names() {
    let job = BackupJob { guild_id: id(1), owner: id(2), revision_id: 7 };
    let check = |guild: u8, coordinator: u8| {
        check_backup_job(&job, &id(guild), &id(coordinator), &id(3), &vec![id(2), id(3)])
    };
    assert_eq!(check(1, 3), Ok(()));
    assert_eq!(check(1, 4), Err(CommitError::WrongCoordinator));
    assert_eq!(check(9, 3), Err(CommitError::WrongCoordinator));
    let facts = |sequence: u64, revision_id: u128| RevisionFacts {
        owner: id(2),
        sequence,
        revision_id,
    };
    assert!(already_committed(&vec![facts(1, 7)], &job));
    assert!(!already_committed(&vec![facts(1, 8)], &job));
    let revision = PreparedRevision {
        signature_valid: true,
        signer: id(2),
        owner: id(2),
        guild_id: id(1),
        revision_id: 7,
        sectors: 4,
    };
    assert_eq!(check_prepared_revision(&revision, &job, 4), Ok(()));
    assert_eq!(
        check_prepared_revision(&revision, &job, 3),
        Err(CommitError::SectorCount)
    );
    assert_eq!(
        check_prepared_revision(&PreparedRevision { signer: id(3), ..revision }, &job, 4),
        Err(CommitError::WrongRevision)
    );
    assert_eq!(next_generation(None), Ok(1));
    assert_eq!(next_generation(Some(4)), Ok(5));
    assert_eq!(next_generation(Some(u64::MAX)), Err(CommitError::GenerationExhausted));
    let revisions = next_revisions(vec![facts(9, 1)], facts(3, 2));
    assert_eq!(
        revisions.iter().map(|revision| revision.sequence).collect::<Vec<_>>(),
        vec![3, 9]
    );
    let request = StorageRequest {
        peer: id(4),
        operation_id: 5,
        guild_id: id(1),
        group_id: id(6),
        shard_index: 3,
        root: id(7),
    };
    let answer = StorageAcknowledgement {
        signature_valid: true,
        signer: id(4),
        holder: id(4),
        operation_id: 5,
        guild_id: id(1),
        group_id: id(6),
        shard_index: 3,
        root: id(7),
    };
    assert!(acknowledgement_matches(&answer, &request));
    let late = StorageAcknowledgement { operation_id: 6, ..answer };
    assert!(!acknowledgement_matches(&late, &request));
}

#[test]
fn the_answer_of_a_provider_is_what_its_record_is_worth() {
    let provider = peer(2).text();
    let current = |subject: u8, now: u64| {
        selected_bundle(&provider, &key(subject), Some(bundle(2, 1, 1, 0)), now)
    };
    assert!(matches!(current(1, NOW), SelectedBundle::Bundle(_)));
    assert!(matches!(current(3, NOW), SelectedBundle::Nothing));
    assert!(matches!(current(1, NOW + 300), SelectedBundle::Nothing));
    assert!(matches!(selected_bundle(&provider, &key(1), None, NOW), SelectedBundle::Nothing));
    let selected = || SelectedBundle::Bundle(bundle(2, 1, 1, 0));
    match bundle_answer(&LIMITS, &key(1), &provider, &selected(), Some(locator(2, 1)), NOW) {
        BundleAnswer::Candidate(found) => {
            let sealed = locator(2, 1);
            assert_eq!(found.word.publisher, key(2));
            assert_eq!(found.word.head.generation, sealed.checkpoint_generation);
            assert_eq!(found.word.head.checkpoint_hash, sealed.checkpoint_hash);
            assert_eq!(found.details.endpoints, sealed.endpoints);
            assert_eq!(found.details.endpoint_floor, sealed.subject_endpoint_sequence_floor);
        }
        other => panic!("{other:?}"),
    }
    let answer = |selected: &SelectedBundle, opened| {
        bundle_answer(&LIMITS, &key(1), &provider, selected, opened, NOW)
    };
    assert!(matches!(answer(&selected(), None), BundleAnswer::Nothing));
    assert!(matches!(answer(&selected(), Some(locator(3, 1))), BundleAnswer::Nothing));
    assert!(matches!(answer(&SelectedBundle::Nothing, None), BundleAnswer::Nothing));
    assert!(matches!(answer(&SelectedBundle::Conflicting, None), BundleAnswer::Conflicting));
    let keep = |opened| kept_candidate(&LIMITS, &key(1), provider.clone(), &bundle(2, 1, 1, 0), opened, NOW);
    assert!(keep(Some(locator(2, 1))).found.is_some());
    assert!(keep(None).found.is_none());
    assert_eq!(keep(None).publisher, key(2));

    let hash = locator(2, 1).checkpoint_hash;
    let ready = |hash: &Id32, selected: &SelectedBundle, authority| {
        let sealed = locator(2, 1);
        provider_answer(&LIMITS, &key(1), &provider, hash, selected, Some(&sealed), authority, NOW)
    };
    assert!(matches!(
        ready(&hash, &selected(), true),
        ProviderAnswer::Fit { publisher, .. } if publisher == key(2)
    ));
    assert!(matches!(
        ready(&hash, &selected(), false),
        ProviderAnswer::Unfit { publisher } if publisher == key(2)
    ));
    assert!(matches!(ready(&id(0), &selected(), true), ProviderAnswer::Unfit { .. }));
    assert!(matches!(
        ready(&hash, &SelectedBundle::Conflicting, true),
        ProviderAnswer::Conflicting
    ));
}
