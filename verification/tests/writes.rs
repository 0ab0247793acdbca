use dms_node::batch_write::{admit_write, BatchItemResult};
use dms_node::digest::digest;
use dms_node::error::{DmsError, ErrorCode, ErrorKind, WorkerError};
use dms_node::identity::{block_identity, derive_batch_operation_id};
use dms_node::layout_write::{require_version, SetRangeInput};
use dms_node::limits::BatchEntry;
use dms_node::node::NodeState;
use dms_node::node_read::GetOutcome;
use dms_node::node_session::NodeTaskConfig;
use dms_node::peer_import::NODE_MAILBOX_CAPACITY;
use dms_node::protocol::{
    BlockReplicaSet, DurabilityPolicy, ReplicaProof, ResolveObjectResponse, VersionKind,
    VersionLayout,
};
use dms_node::value_write::{CommitResult, LocalReplicaIdentity, ValueCommit};
use dms_node::version_layout::{data_extent, hole_extent, ExtentRecord};

const SECOND: u64 = 1_000_000_000;
const NOW: u64 = 1_000 * SECOND;

fn node() -> NodeState {
    NodeState::new(
        "n".to_string(),
        true,
        &NodeTaskConfig {
            arena_capacity_bytes: 4096,
            staging_ttl: 30 * SECOND,
            client_cache_lease_ttl: SECOND,
            node_current_cache_bytes: 1 << 20,
            node_current_cache_ttl: 5 * SECOND,
            shared_memory: false,
        },
        7,
        NOW,
    )
}

fn open(state: &mut NodeState) -> u64 {
    state
        .open_session_with_write_release(false, false)
        .expect("session id is available")
}

fn identity() -> LocalReplicaIdentity {
    LocalReplicaIdentity {
        node_id: 7,
        node_epoch: 3,
        data_endpoint: "http://127.0.0.1:19007".to_string(),
    }
}

fn read_bytes(state: &NodeState, block_id: &Vec<u8>) -> Option<Vec<u8>> {
    let (ticket, _) = state.arena.open_read(block_id, None).ok()?;
    state.arena.read_ticket(ticket).ok()
}

fn propose(
    state: &mut NodeState,
    session: u64,
    key: &[u8],
    operation: u8,
) -> Result<ValueCommit, WorkerError> {
    state.commit_bytes(
        session,
        key.to_vec(),
        b"value".to_vec(),
        vec![operation; 24],
        "any".to_string(),
        NOW,
    )
}

fn rejection() -> DmsError {
    DmsError::new(
        ErrorCode::MetaCatalogVersionConflict,
        ErrorKind::Aborted,
        "operation was used before",
    )
}

#[test]
fn rejected_operation_reuse_cannot_retire_another_write_block() {
    let mut state = node();
    let session = open(&mut state);
    let block_id = block_identity("n", &[1; 24]);
    let first = propose(&mut state, session, b"a", 1).unwrap();
    assert!(matches!(
        propose(&mut state, session, b"b", 1),
        Err(WorkerError::WorkerUnavailable)
    ));
    let sent = state
        .publish_block(&first.key, &first.block_id, Ok(1), NOW)
        .unwrap();
    let outcome = state
        .settle_value(
            first,
            CommitResult {
                version: 1,
                revision: 1,
            },
            &identity(),
            sent.barrier_id,
            &Vec::new(),
            NOW,
        )
        .unwrap();
    assert_eq!(outcome.version, 1);
    assert_eq!(outcome.length, 5);
    let second = propose(&mut state, session, b"b", 1).unwrap();
    assert!(state
        .publish_block(&second.key, &second.block_id, Err(rejection()), NOW)
        .is_err());
    assert_eq!(read_bytes(&state, &block_id).unwrap(), b"value".to_vec());
    assert!(state.pending_blocks.is_empty());
}

#[test]
fn a_rejected_write_leaves_nothing_and_an_unclear_one_keeps_its_block() {
    let mut state = node();
    let session = open(&mut state);
    let rejected = propose(&mut state, session, b"a", 2).unwrap();
    assert!(state
        .publish_block(&rejected.key, &rejected.block_id, Err(rejection()), NOW)
        .is_err());
    assert!(read_bytes(&state, &rejected.block_id).is_none());
    let unclear = propose(&mut state, session, b"a", 3).unwrap();
    let lost = DmsError::new(
        ErrorCode::NodeMetadataUnavailable,
        ErrorKind::Unavailable,
        "no answer",
    );
    assert!(matches!(
        state.publish_block(&unclear.key, &unclear.block_id, Err(lost), NOW),
        Err(WorkerError::Stable(_))
    ));
    assert_eq!(
        read_bytes(&state, &unclear.block_id).unwrap(),
        b"value".to_vec()
    );
    assert!(state.pending_blocks.is_empty());
}

#[test]
fn a_write_without_a_metadata_service_fails_and_leaves_nothing() {
    let mut state = NodeState::new(
        "n".to_string(),
        false,
        &NodeTaskConfig {
            arena_capacity_bytes: 4096,
            staging_ttl: 30 * SECOND,
            client_cache_lease_ttl: SECOND,
            node_current_cache_bytes: 1 << 20,
            node_current_cache_ttl: 5 * SECOND,
            shared_memory: false,
        },
        7,
        NOW,
    );
    let session = open(&mut state);
    assert!(matches!(
        propose(&mut state, session, b"a", 1),
        Err(WorkerError::MetadataUnavailable)
    ));
    assert!(state.pending_blocks.is_empty());
}

#[test]
fn worker_and_process_local_object_boundaries_remain_siblings() {
    // A client's write needs its session. A write of the node's own needs none, and notes no
    // client's interest.
    let mut state = node();
    let session = open(&mut state);
    assert!(matches!(
        propose(&mut state, session + 1, b"a", 1),
        Err(WorkerError::UnknownSession)
    ));
    let own = state
        .commit_bytes_for_data_core(
            b"a".to_vec(),
            b"value".to_vec(),
            vec![4; 24],
            "any".to_string(),
            NOW,
        )
        .unwrap();
    assert_eq!(own.cache_session_id, None);
    let clients = propose(&mut state, session, b"b", 5).unwrap();
    assert_eq!(clients.cache_session_id, Some(session));
    assert!(state.check_delete(None, &b"a".to_vec(), &vec![1; 24]).is_ok());
    assert!(state
        .check_delete(Some(session + 1), &b"a".to_vec(), &vec![1; 24])
        .is_err());
}

#[test]
fn a_written_value_is_answered_from_the_cache() {
    let mut state = node();
    let session = open(&mut state);
    state.metadata_watch_connected = true;
    state.metadata_lease_until = NOW + 30 * SECOND;
    let commit = propose(&mut state, session, b"key", 6).unwrap();
    let sent = state
        .publish_block(&commit.key, &commit.block_id, Ok(4), NOW)
        .unwrap();
    state
        .settle_value(
            commit,
            CommitResult {
                version: 4,
                revision: 9,
            },
            &identity(),
            sent.barrier_id,
            &Vec::new(),
            NOW,
        )
        .unwrap();
    let (_, outcome) = state
        .get_cached(session, u64::MAX, 1, &b"key".to_vec(), 3, None, false, 64, NOW)
        .unwrap();
    let dms_node::cached_read::CachedReadOutcome::Ready(ticket) = outcome else {
        panic!("the value was written here")
    };
    assert_eq!(ticket.version, 4);
    assert_eq!(ticket.inline_value, Some(b"value".to_vec()));
}

fn staged(state: &mut NodeState, session: u64, bytes: &[u8]) -> (u64, dms_node::arena::HostReceipt) {
    let allocation = state
        .allocate_staging(session, bytes.len() as u64, b"token".to_vec(), NOW)
        .unwrap();
    let receipt = state.upload(allocation.transfer_id, bytes.to_vec()).unwrap();
    (allocation.staging_id, receipt)
}

#[test]
fn a_staged_payload_becomes_a_block() {
    let mut state = node();
    let session = open(&mut state);
    let (staging_id, receipt) = staged(&mut state, session, b"payload");
    let commit = state
        .set(
            session,
            b"key".to_vec(),
            staging_id,
            &receipt,
            vec![8; 24],
            "any".to_string(),
            NOW,
        )
        .unwrap();
    assert_eq!(commit.block_id, block_identity("n", &[8; 24]));
    assert_eq!(commit.checksum, digest(b"payload"));
    assert_eq!(read_bytes(&state, &commit.block_id).unwrap(), b"payload".to_vec());
    assert_eq!(state.arena.stagings.len(), 0);
    assert!(state
        .set(
            session,
            Vec::new(),
            staging_id,
            &receipt,
            vec![8; 24],
            "any".to_string(),
            NOW
        )
        .is_err());
}

fn value(version: u64, length: u64, extents: Vec<ExtentRecord>) -> ResolveObjectResponse {
    ResolveObjectResponse {
        layout: Some(VersionLayout {
            version,
            logical_length: length,
            extents,
            digest: b"layout".to_vec(),
            kind: VersionKind::Value,
        }),
        block_replicas: vec![BlockReplicaSet {
            block_id: b"base".to_vec(),
            replicas: Vec::new(),
            length: 6,
            proofs: vec![ReplicaProof {
                block_id: b"base".to_vec(),
                node_id: 1,
                node_epoch: 1,
                catalog_revision: 1,
                checksum: b"base".to_vec(),
                durability: DurabilityPolicy::LocalMemory,
            }],
        }],
        current_lease: None,
    }
}

fn base_value() -> ResolveObjectResponse {
    value(
        3,
        6,
        vec![data_extent(0, 6, b"base".to_vec(), 0, b"base".to_vec())],
    )
}

fn read_back(state: &mut NodeState, session: u64, length: u64, extents: Vec<ExtentRecord>) -> Vec<u8> {
    let resolved = value(4, length, extents);
    let GetOutcome::Ready(ticket) = state
        .get_resolved(session, &resolved, None, 64, NOW)
        .expect("read back")
    else {
        panic!("every block is here")
    };
    ticket.inline_value.expect("few bytes")
}

#[test]
fn a_replaced_range_reads_back_and_the_rest_stays() {
    let mut state = node();
    let session = open(&mut state);
    state
        .arena
        .commit_inline_with_verified_digest(b"base".to_vec(), b"abcdef".to_vec(), digest(b"abcdef"))
        .unwrap();
    let (staging_id, receipt) = staged(&mut state, session, b"XY");
    let input = |offset: u64| SetRangeInput {
        session_id: session,
        key: b"key".to_vec(),
        offset,
        staging_id,
        receipt: receipt.duplicate(),
        operation_id: vec![9; 24],
        expected_version: None,
    };
    assert!(matches!(
        state.set_range(input(5), &base_value()),
        Err(WorkerError::InvalidArgument(
            "range write extends beyond current value"
        ))
    ));
    assert!(matches!(
        state.set_range(input(u64::MAX), &base_value()),
        Err(WorkerError::InvalidArgument("range write overflows u64"))
    ));
    let commit = state.set_range(input(2), &base_value()).unwrap();
    assert_eq!(commit.condition, "if-version:3");
    assert_eq!(commit.candidate.logical_length, 6);
    assert_eq!(commit.replica_proofs.len(), 1);
    assert_eq!(commit.new_replicas.len(), 1);
    let sent = state
        .publish_block(&commit.key, &commit.block_id, Ok(4), NOW)
        .unwrap();
    let outcome = state
        .settle_layout(&commit, 4, sent.barrier_id, &Vec::new())
        .unwrap();
    assert_eq!(outcome.version, 4);
    assert_eq!(
        read_back(&mut state, session, 6, commit.candidate.extents),
        b"abXYef".to_vec()
    );
    assert_eq!(require_version(10203), "if-version:10203");
    assert_eq!(require_version(0), "if-version:0");
}

#[test]
fn a_range_of_the_nodes_own_is_replaced_without_a_session() {
    let mut state = node();
    let session = open(&mut state);
    state
        .arena
        .commit_inline_with_verified_digest(b"base".to_vec(), b"abcdef".to_vec(), digest(b"abcdef"))
        .unwrap();
    let commit = state
        .set_range_inline_for_data_core(
            b"key".to_vec(),
            4,
            b"XY".to_vec(),
            vec![9; 24],
            &base_value(),
        )
        .unwrap();
    assert_eq!(commit.cache_session_id, None);
    assert_eq!(
        read_back(&mut state, session, 6, commit.candidate.extents),
        b"abcdXY".to_vec()
    );
    assert!(state
        .set_range_inline_for_data_core(
            b"key".to_vec(),
            6,
            b"Z".to_vec(),
            vec![10; 24],
            &base_value(),
        )
        .is_err());
}

#[test]
fn filesystem_random_write_uses_core_range_semantics() {
    let mut state = node();
    let session = open(&mut state);
    state
        .arena
        .commit_inline_with_verified_digest(b"base".to_vec(), b"abcdef".to_vec(), digest(b"abcdef"))
        .unwrap();
    let prepared = state
        .prepare_range_for_filesystem(
            b"file".to_vec(),
            8,
            b"YZ".to_vec(),
            vec![3; 24],
            &base_value(),
        )
        .unwrap();
    assert_eq!(prepared.expected_object_version, Some(3));
    assert_eq!(prepared.candidate.logical_length, 10);
    assert_eq!(prepared.candidate.extents.len(), 3);
    assert_eq!(prepared.candidate.extents[1], hole_extent(6, 2));
    assert_eq!(state.pending_blocks.len(), 1);
    let sent = state.finish_filesystem_preparation(&prepared, Some(4), false, NOW);
    assert!(sent.is_some());
    assert!(state.pending_blocks.is_empty());
    assert_eq!(
        read_back(&mut state, session, 10, prepared.candidate.extents),
        b"abcdef\0\0YZ".to_vec()
    );
}

#[test]
fn filesystem_truncate_shrinks_and_zero_extends() {
    let mut state = node();
    let session = open(&mut state);
    state
        .arena
        .commit_inline_with_verified_digest(b"base".to_vec(), b"abcdef".to_vec(), digest(b"abcdef"))
        .unwrap();
    let shorter = state
        .prepare_truncate_for_filesystem(b"file".to_vec(), 2, &vec![3; 24], &base_value())
        .unwrap();
    assert_eq!(
        read_back(&mut state, session, 2, shorter.candidate.extents),
        b"ab".to_vec()
    );
    let longer = state
        .prepare_truncate_for_filesystem(b"file".to_vec(), 8, &vec![3; 24], &base_value())
        .unwrap();
    assert!(longer.new_replicas.is_empty());
    assert_eq!(
        read_back(&mut state, session, 8, longer.candidate.extents),
        b"abcdef\0\0".to_vec()
    );
    let punched = state
        .prepare_punch_hole_for_filesystem(b"file".to_vec(), 1, 3, &vec![3; 24], &base_value())
        .unwrap();
    assert_eq!(
        read_back(&mut state, session, 6, punched.candidate.extents),
        b"a\0\0\0ef".to_vec()
    );
}

#[test]
fn a_new_sparse_file_has_one_block_and_holes() {
    let mut state = node();
    let session = open(&mut state);
    let prepared = state
        .prepare_sparse_for_filesystem(
            b"file".to_vec(),
            6,
            2,
            b"xy".to_vec(),
            vec![5; 24],
            None,
        )
        .unwrap();
    assert_eq!(prepared.new_replicas.len(), 1);
    let block_id = prepared.new_replicas[0].block_id.clone();
    let copy = dms_node::version_layout::copy_extents(&prepared.candidate.extents);
    assert_eq!(read_back(&mut state, session, 6, copy), b"\0\0xy\0\0".to_vec());
    // A preparation that was turned down takes its block with it.
    assert!(state
        .finish_filesystem_preparation(&prepared, None, true, NOW)
        .is_none());
    assert!(read_bytes(&state, &block_id).is_none());
}

#[test]
fn a_batch_is_proposed_and_told_of_value_by_value() {
    let mut state = node();
    let session = open(&mut state);
    let mut entries: Vec<BatchEntry> = Vec::new();
    for (key, bytes) in [(b"a", b"one"), (b"b", b"two")] {
        let (staging_id, receipt) = staged(&mut state, session, bytes);
        entries.push(BatchEntry {
            key: key.to_vec(),
            staging_id,
            receipt,
        });
    }
    let commit = state.mset(session, entries, vec![6; 24]).unwrap();
    assert_eq!(commit.values.len(), 2);
    assert_eq!(
        commit.values[1].operation_id,
        derive_batch_operation_id(&[6; 24], 1).unwrap()
    );
    let results = vec![
        BatchItemResult {
            key: Some(b"a".to_vec()),
            version: Some(11),
        },
        BatchItemResult {
            key: Some(b"b".to_vec()),
            version: Some(12),
        },
    ];
    let mut completion = state.begin_batch_completion(&commit, Ok(results)).unwrap();
    assert!(state.pending_blocks.is_empty());
    for _ in 0..2 {
        let sent = state
            .announce_batch_value(&completion, NOW)
            .unwrap()
            .expect("a value is left");
        state
            .settle_batch_value(&mut completion, sent.barrier_id, &Vec::new())
            .unwrap();
    }
    assert!(state.announce_batch_value(&completion, NOW).unwrap().is_none());
    let outcome = completion.outcome();
    assert_eq!(outcome.versions.len(), 2);
    assert_eq!(outcome.versions[1].version, 12);
    assert!(outcome.barrier_ids.is_empty());
}

#[test]
fn a_failed_batch_leaves_nothing_pending() {
    let mut state = node();
    let session = open(&mut state);
    let (staging_id, receipt) = staged(&mut state, session, b"one");
    let commit = state
        .mset(
            session,
            vec![BatchEntry {
                key: b"a".to_vec(),
                staging_id,
                receipt,
            }],
            vec![6; 24],
        )
        .unwrap();
    assert_eq!(state.pending_blocks.len(), 1);
    assert!(matches!(
        state.begin_batch_completion(&commit, Err(rejection())),
        Err(WorkerError::Stable(_))
    ));
    assert!(state.pending_blocks.is_empty());
    assert!(read_bytes(&state, &commit.values[0].block_id).is_none());
    assert!(matches!(
        state.mset(session, Vec::new(), vec![6; 24]),
        Err(WorkerError::InvalidArgument(_))
    ));
}

#[test]
fn a_deletion_is_told_only_where_something_was_deleted() {
    let mut state = node();
    let key = b"key".to_vec();
    let (outcome, sent) = state.complete_delete(&key, Ok((false, 3)), NOW).unwrap();
    assert!(!outcome.deleted);
    assert!(sent.is_none());
    let (outcome, sent) = state.complete_delete(&key, Ok((true, 4)), NOW).unwrap();
    assert!(outcome.deleted);
    assert_eq!(outcome.version, 4);
    assert!(sent.is_some());
    assert!(matches!(
        state.complete_delete(&key, Err(rejection()), NOW),
        Err(WorkerError::Stable(_))
    ));
    assert!(matches!(
        state.check_delete(None, &Vec::new(), &vec![1; 24]),
        Err(WorkerError::InvalidArgument(_))
    ));
}

#[test]
fn writes_under_way_are_bounded() {
    assert!(admit_write(NODE_MAILBOX_CAPACITY - 1).is_ok());
    assert!(matches!(
        admit_write(NODE_MAILBOX_CAPACITY),
        Err(WorkerError::ResourceExhausted)
    ));
}

#[test]
fn a_repeated_file_write_reads_back_as_the_first() {
    let mut state = node();
    let session = open(&mut state);
    state
        .arena
        .commit_inline_with_verified_digest(b"base".to_vec(), b"abcdef".to_vec(), digest(b"abcdef"))
        .unwrap();
    for _ in 0..2 {
        let prepared = state
            .prepare_range_for_filesystem(
                b"file".to_vec(),
                1,
                b"YZ".to_vec(),
                vec![3; 24],
                &base_value(),
            )
            .unwrap();
        state.finish_filesystem_preparation(&prepared, Some(4), false, NOW);
        assert_eq!(
            read_back(&mut state, session, 6, prepared.candidate.extents),
            b"aYZdef".to_vec()
        );
    }
    assert_eq!(state.arena.used, 8);
}

#[test]
fn an_operation_under_way_is_refused_in_every_form() {
    let mut state = node();
    let session = open(&mut state);
    let (staging_id, receipt) = staged(&mut state, session, b"XY");
    state
        .prepare_sparse_for_filesystem(b"file".to_vec(), 6, 2, b"xy".to_vec(), vec![5; 24], None)
        .unwrap();
    let used = state.arena.used;
    assert!(matches!(
        state.prepare_sparse_for_filesystem(
            b"file".to_vec(),
            6,
            2,
            b"xy".to_vec(),
            vec![5; 24],
            None
        ),
        Err(WorkerError::WorkerUnavailable)
    ));
    assert!(matches!(
        state.prepare_range_for_filesystem(
            b"file".to_vec(),
            1,
            b"YZ".to_vec(),
            vec![5; 24],
            &base_value()
        ),
        Err(WorkerError::WorkerUnavailable)
    ));
    assert!(matches!(
        state.set_range_inline_for_data_core(
            b"key".to_vec(),
            4,
            b"XY".to_vec(),
            vec![5; 24],
            &base_value()
        ),
        Err(WorkerError::WorkerUnavailable)
    ));
    let input = SetRangeInput {
        session_id: session,
        key: b"key".to_vec(),
        offset: 2,
        staging_id,
        receipt: receipt.duplicate(),
        operation_id: vec![5; 24],
        expected_version: None,
    };
    assert!(matches!(
        state.set_range(input, &base_value()),
        Err(WorkerError::WorkerUnavailable)
    ));
    assert!(matches!(
        state.set(
            session,
            b"key".to_vec(),
            staging_id,
            &receipt,
            vec![5; 24],
            "any".to_string(),
            NOW
        ),
        Err(WorkerError::WorkerUnavailable)
    ));
    assert_eq!(state.arena.used, used);
    assert_eq!(state.pending_blocks.len(), 1);
}

#[test]
fn a_batch_that_fails_halfway_leaves_what_was_there() {
    let mut state = node();
    let session = open(&mut state);
    let second = block_identity("n", &derive_batch_operation_id(&[6; 24], 1).unwrap());
    state
        .arena
        .commit_inline_with_verified_digest(second.clone(), b"other".to_vec(), digest(b"other"))
        .unwrap();
    let mut entries: Vec<BatchEntry> = Vec::new();
    for (key, bytes) in [(b"a", b"one"), (b"b", b"two")] {
        let (staging_id, receipt) = staged(&mut state, session, bytes);
        entries.push(BatchEntry {
            key: key.to_vec(),
            staging_id,
            receipt,
        });
    }
    assert!(matches!(
        state.mset(session, entries, vec![6; 24]),
        Err(WorkerError::Conflict)
    ));
    assert!(state.pending_blocks.is_empty());
    assert_eq!(state.arena.blocks.len(), 1);
    assert_eq!(read_bytes(&state, &second), Some(b"other".to_vec()));
}
