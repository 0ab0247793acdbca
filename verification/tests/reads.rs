use dms_node::cached_read::{CachedReadOutcome, DataCoreCachedReadOutcome};
use dms_node::data_core_read::{fill_imported_parts, CacheRefill, DataCoreMaterializeOutcome};
use dms_node::digest::digest;
use dms_node::error::{is_not_found_result, worker_error_to_dms, ErrorCode, ErrorKind, WorkerError};
use dms_node::node::{DownloadTicket, NodeState};
use dms_node::node_read::{GetOutcome, MaterializeOutcome, ReadTarget, ReadTicket, MAX_INLINE_READ_BYTES};
use dms_node::node_session::NodeTaskConfig;
use dms_node::payload::Payload;
use dms_node::prefetch::FILESYSTEM_DIRECTORY_PREFETCH_BYTES_MAX;
use dms_node::protocol::{
    BlockReplicaSet, CurrentLeaseGrant, DurabilityPolicy, ReplicaLocation, ResolveObjectResponse,
    VersionKind, VersionLayout,
};
use dms_node::read_plan::{
    data_core_planned_read_part_offset, describe_missing_block, DataCorePlannedReadPart,
};
use dms_node::table::Table;
use dms_node::version_layout::{data_extent, hole_extent, ExtentRecord};

const SECOND: u64 = 1_000_000_000;
const NOW: u64 = 1_000 * SECOND;

fn node_with(capacity: u64, shared_memory: bool) -> NodeState {
    NodeState::new(
        "node-a".to_string(),
        false,
        &NodeTaskConfig {
            arena_capacity_bytes: capacity,
            staging_ttl: 30 * SECOND,
            client_cache_lease_ttl: SECOND,
            node_current_cache_bytes: 1 << 20,
            node_current_cache_ttl: 5 * SECOND,
            shared_memory,
        },
        7,
        NOW,
    )
}

fn node() -> NodeState {
    node_with(4096, false)
}

fn open(state: &mut NodeState, shared_memory: bool) -> u64 {
    state
        .open_session_with_write_release(shared_memory, false)
        .expect("session id is available")
}

fn commit_inline(state: &mut NodeState, block_id: &[u8], bytes: &[u8]) {
    state
        .arena
        .commit_inline_with_verified_digest(block_id.to_vec(), bytes.to_vec(), digest(bytes))
        .expect("commit block");
}

fn test_extent(offset: u64, length: u64, block_id: &[u8], block_offset: u64) -> ExtentRecord {
    data_extent(offset, length, block_id.to_vec(), block_offset, block_id.to_vec())
}

fn resolved_value(version: u64, logical_length: u64, extents: Vec<ExtentRecord>) -> ResolveObjectResponse {
    ResolveObjectResponse {
        layout: Some(VersionLayout {
            version,
            logical_length,
            extents,
            digest: b"test-digest".to_vec(),
            kind: VersionKind::Value,
        }),
        block_replicas: Vec::new(),
        current_lease: None,
    }
}

fn replica_set(block_id: &[u8], length: u64) -> BlockReplicaSet {
    BlockReplicaSet {
        block_id: block_id.to_vec(),
        replicas: vec![ReplicaLocation {
            block_id: block_id.to_vec(),
            node_id: 2,
            node_epoch: 1,
            data_endpoint: "http://127.0.0.1:25299".to_string(),
            checksum: block_id.to_vec(),
            durability: DurabilityPolicy::LocalMemory,
        }],
        length,
        proofs: Vec::new(),
    }
}

fn get(
    state: &mut NodeState,
    session: u64,
    resolved: &ResolveObjectResponse,
    range: Option<(u64, u64)>,
    max_inline_bytes: u64,
) -> Result<GetOutcome, WorkerError> {
    state.get_resolved(session, resolved, range, max_inline_bytes, NOW)
}

fn ready(outcome: Result<GetOutcome, WorkerError>) -> ReadTicket {
    match outcome.expect("get resolved") {
        GetOutcome::Ready(ticket) => ticket,
        GetOutcome::NeedsRemoteBlocks(_) => panic!("block is local"),
    }
}

#[test]
fn download_ticket_is_one_shot_handle_and_can_expire() {
    let mut state = node();
    let session = open(&mut state, false);
    commit_inline(&mut state, b"block-1", b"abcdef");
    let (read, _) = state
        .arena
        .open_read(&b"block-1".to_vec(), Some((1, 3)))
        .expect("open read");
    state.next_transfer = 3;
    state.downloads.insert(
        1,
        DownloadTicket {
            read,
            session_id: session,
            read_request_id: 0,
            expires_at: NOW + 30 * SECOND,
        },
    );
    assert_eq!(state.download(1, NOW).0.expect("download"), b"bcd".to_vec());
    assert!(matches!(
        state.download(1, NOW).0,
        Err(WorkerError::UnknownTransfer)
    ));

    state.downloads.insert(
        2,
        DownloadTicket {
            read,
            session_id: session,
            read_request_id: 0,
            expires_at: NOW - SECOND,
        },
    );
    assert!(matches!(
        state.download(2, NOW).0,
        Err(WorkerError::UnknownTransfer)
    ));
}

#[test]
fn get_resolved_zero_inline_budget_keeps_legacy_download_ticket() {
    let mut state = node();
    let session = open(&mut state, false);
    commit_inline(&mut state, b"block-1", b"abc");
    let resolved = resolved_value(7, 3, vec![test_extent(0, 3, b"block-1", 0)]);
    let ticket = ready(get(&mut state, session, &resolved, None, 0));
    assert_eq!(ticket.inline_value, None);
    assert_eq!(ticket.segments.len(), 1);
    assert_eq!(state.downloads.len(), 1);
}

#[test]
fn get_resolved_small_non_shm_read_returns_inline_without_download_ticket() {
    let mut state = node();
    let session = open(&mut state, false);
    commit_inline(&mut state, b"block-1", b"abc");
    let resolved = resolved_value(8, 3, vec![test_extent(0, 3, b"block-1", 0)]);
    let ticket = ready(get(&mut state, session, &resolved, None, 3));
    assert_eq!(ticket.inline_value.as_deref(), Some(b"abc".as_slice()));
    assert!(ticket.segments.is_empty());
    assert!(state.downloads.is_empty());
}

#[test]
fn get_resolved_inline_materializes_sparse_hole_as_zero_bytes() {
    let mut state = node();
    let session = open(&mut state, false);
    commit_inline(&mut state, b"block-1", b"abc");
    let resolved = resolved_value(
        9,
        6,
        vec![
            hole_extent(0, 2),
            test_extent(2, 3, b"block-1", 0),
            hole_extent(5, 1),
        ],
    );
    let ticket = ready(get(&mut state, session, &resolved, None, 6));
    assert_eq!(
        ticket.inline_value.as_deref(),
        Some(b"\0\0abc\0".as_slice())
    );
    assert!(ticket.segments.is_empty());
    assert!(state.downloads.is_empty());
}

#[test]
fn get_resolved_non_inline_returns_zero_segments_without_download_tickets() {
    let mut state = node();
    let session = open(&mut state, false);
    commit_inline(&mut state, b"block-1", b"abc");
    let resolved = resolved_value(
        10,
        5,
        vec![hole_extent(0, 2), test_extent(2, 3, b"block-1", 0)],
    );
    let ticket = ready(get(&mut state, session, &resolved, None, 0));
    assert_eq!(ticket.inline_value, None);
    assert_eq!(ticket.segments.len(), 2);
    assert!(matches!(
        ticket.segments[0].target,
        ReadTarget::Zero { length: 2 }
    ));
    assert!(matches!(ticket.segments[1].target, ReadTarget::Grpc { .. }));
    assert_eq!(state.downloads.len(), 1);
}

#[test]
fn get_resolved_inline_budget_is_clamped_by_protocol_limit() {
    let mut state = node_with(MAX_INLINE_READ_BYTES + 4096, false);
    let session = open(&mut state, false);
    let value = vec![b'x'; MAX_INLINE_READ_BYTES as usize + 1];
    commit_inline(&mut state, b"large-block", &value);
    let resolved = resolved_value(
        9,
        MAX_INLINE_READ_BYTES + 1,
        vec![test_extent(0, MAX_INLINE_READ_BYTES + 1, b"large-block", 0)],
    );
    let ticket = ready(get(&mut state, session, &resolved, None, u64::MAX));
    assert_eq!(ticket.inline_value, None);
    assert_eq!(ticket.segments.len(), 1);
    assert_eq!(state.downloads.len(), 1);
}

#[test]
fn get_resolved_range_overlay_can_return_inline_from_bound_version() {
    let mut state = node();
    let session = open(&mut state, false);
    commit_inline(&mut state, b"base", b"abcdef");
    commit_inline(&mut state, b"patch", b"X");
    let resolved = resolved_value(
        10,
        6,
        vec![
            test_extent(0, 2, b"base", 0),
            test_extent(2, 1, b"patch", 0),
            test_extent(3, 3, b"base", 3),
        ],
    );
    let ticket = ready(get(&mut state, session, &resolved, Some((1, 3)), 3));
    assert_eq!(ticket.version, 10);
    assert_eq!(ticket.logical_length, 6);
    assert_eq!(ticket.inline_value.as_deref(), Some(b"bXd".as_slice()));
    assert!(ticket.segments.is_empty());
    assert!(state.downloads.is_empty());
}

#[test]
fn strict_read_range_past_end_stays_invalid() {
    let mut state = node();
    let session = open(&mut state, false);
    commit_inline(&mut state, b"block", b"abc");
    let resolved = resolved_value(12, 3, vec![test_extent(0, 3, b"block", 0)]);
    assert!(matches!(
        get(&mut state, session, &resolved, Some((2, 2)), 64),
        Err(WorkerError::InvalidArgument(
            "read range extends beyond current value"
        ))
    ));
}

fn get_clamped(
    state: &mut NodeState,
    session: u64,
    request: u64,
    resolved: &ResolveObjectResponse,
    range: (u64, u64),
) -> Result<GetOutcome, WorkerError> {
    state.get_resolved_for_request(session, u64::MAX, request, resolved, Some(range), true, 64, NOW)
}

#[test]
fn clamp_range_past_end_returns_empty_without_download_ticket() {
    let mut state = node();
    let session = open(&mut state, false);
    commit_inline(&mut state, b"block", b"abc");
    let resolved = resolved_value(13, 3, vec![test_extent(0, 3, b"block", 0)]);
    let ticket = ready(get_clamped(&mut state, session, 1, &resolved, (3, 9)));
    assert_eq!(ticket.version, 13);
    assert_eq!(ticket.logical_length, 3);
    assert_eq!(ticket.inline_value.as_deref(), Some([].as_slice()));
    assert!(ticket.segments.is_empty());
    assert!(state.downloads.is_empty());
}

#[test]
fn clamp_range_preserves_zero_length_as_empty() {
    let mut state = node();
    let session = open(&mut state, false);
    commit_inline(&mut state, b"block", b"abc");
    let resolved = resolved_value(14, 3, vec![test_extent(0, 3, b"block", 0)]);
    let ticket = ready(get_clamped(&mut state, session, 2, &resolved, (1, 0)));
    assert_eq!(ticket.inline_value.as_deref(), Some([].as_slice()));
    assert!(ticket.segments.is_empty());
    assert!(state.downloads.is_empty());
}

#[test]
fn clamp_range_clips_tail_across_multiple_extents() {
    let mut state = node();
    let session = open(&mut state, false);
    commit_inline(&mut state, b"left", b"abc");
    commit_inline(&mut state, b"right", b"def");
    let resolved = resolved_value(
        14,
        6,
        vec![test_extent(0, 3, b"left", 0), test_extent(3, 3, b"right", 0)],
    );
    let ticket = ready(get_clamped(&mut state, session, 2, &resolved, (2, 99)));
    assert_eq!(ticket.inline_value.as_deref(), Some(b"cdef".as_slice()));
    assert!(ticket.segments.is_empty());
}

#[test]
fn clamp_range_keeps_overflow_invalid_before_tail_clip() {
    let mut state = node();
    let session = open(&mut state, false);
    commit_inline(&mut state, b"block", b"abc");
    let resolved = resolved_value(15, 3, vec![test_extent(0, 3, b"block", 0)]);
    assert!(matches!(
        get_clamped(&mut state, session, 3, &resolved, (u64::MAX, 1)),
        Err(WorkerError::InvalidArgument("read range overflows u64"))
    ));
}

#[test]
fn clamp_range_still_rejects_invalid_layout_gap() {
    let mut state = node();
    let session = open(&mut state, false);
    commit_inline(&mut state, b"left", b"ab");
    commit_inline(&mut state, b"right", b"d");
    let resolved = resolved_value(
        16,
        4,
        vec![test_extent(0, 2, b"left", 0), test_extent(3, 1, b"right", 0)],
    );
    assert!(matches!(
        get_clamped(&mut state, session, 4, &resolved, (1, 99)),
        Err(WorkerError::InvalidArgument(
            "version layout contains a gap, overlap, or empty extent"
        ))
    ));
}

#[test]
fn clamp_range_peer_fallback_uses_clipped_resolved_version() {
    let mut state = node();
    let session = open(&mut state, false);
    commit_inline(&mut state, b"left", b"abc");
    let mut resolved = resolved_value(
        17,
        6,
        vec![test_extent(0, 3, b"left", 0), test_extent(3, 3, b"remote", 0)],
    );
    resolved.block_replicas = vec![replica_set(b"remote", 3)];
    let specs = match get_clamped(&mut state, session, 5, &resolved, (4, 99))
        .expect("clamped missing-block get")
    {
        GetOutcome::Ready(_) => panic!("remote extent is missing"),
        GetOutcome::NeedsRemoteBlocks(specs) => specs,
    };
    assert_eq!(specs.len(), 1);
    assert_eq!(specs[0].block_id, b"remote".to_vec());
    assert_eq!(specs[0].expected_length, 3);
}

#[test]
fn resolved_version_without_live_replica_is_unavailable_not_not_found() {
    let mut state = node();
    let session = open(&mut state, false);
    let mut resolved = resolved_value(18, 4, vec![test_extent(0, 4, b"lost-block", 0)]);
    resolved.block_replicas = vec![BlockReplicaSet {
        block_id: b"lost-block".to_vec(),
        replicas: Vec::new(),
        length: 4,
        proofs: Vec::new(),
    }];
    let error = match state.get_resolved_for_request(
        session, u64::MAX, 6, &resolved, None, false, 64, NOW,
    ) {
        Ok(_) => panic!("version exists but no live replica can serve it"),
        Err(error) => error,
    };
    assert!(!is_not_found_result(&error));
    let public = worker_error_to_dms(error);
    assert_eq!(public.code, ErrorCode::NodeObjectUnavailable);
    assert_eq!(public.kind, ErrorKind::Unavailable);
}

fn lease(version: u64, lease_epoch: u64) -> CurrentLeaseGrant {
    CurrentLeaseGrant {
        version,
        lease_epoch,
        leader_epoch: 0,
        revision: 0,
        ttl_millis: 30_000,
    }
}

fn trust_metadata(state: &mut NodeState) {
    state.metadata_watch_connected = true;
    state.metadata_lease_until = NOW + 30 * SECOND;
}

#[test]
fn current_cache_clamped_range_reuses_layout_without_full_interest() {
    let mut state = node();
    let session = open(&mut state, false);
    trust_metadata(&mut state);
    commit_inline(&mut state, b"block", b"abc");
    let mut resolved = resolved_value(18, 3, vec![test_extent(0, 3, b"block", 0)]);
    resolved.current_lease = Some(lease(18, 0));
    let token = state.current_cache.token().expect("cache token");
    assert!(state
        .current_cache
        .insert(token, b"key".to_vec(), &resolved, NOW, 0, NOW));

    let (_token, outcome) = state
        .get_cached(
            session,
            u64::MAX,
            6,
            &b"key".to_vec(),
            0,
            Some((1, 99)),
            true,
            64,
            NOW,
        )
        .expect("cached read");
    let CachedReadOutcome::Ready(ticket) = outcome else {
        panic!("cached layout should satisfy clamped local range");
    };
    assert_eq!(ticket.version, 18);
    assert_eq!(ticket.inline_value.as_deref(), Some(b"bc".as_slice()));
    assert!(!state
        .sessions
        .sessions
        .get(&session)
        .unwrap()
        .cached_current_keys
        .contains(&b"key".to_vec()));
}

#[test]
fn get_resolved_shm_session_ignores_inline_budget() {
    let mut state = node();
    let session = open(&mut state, true);
    commit_inline(&mut state, b"block-1", b"abc");
    let resolved = resolved_value(11, 3, vec![test_extent(0, 3, b"block-1", 0)]);
    let ticket = ready(get(&mut state, session, &resolved, None, 3));
    assert_eq!(ticket.inline_value, None);
    assert_eq!(ticket.segments.len(), 1);
    assert_eq!(state.downloads.len(), 1);
    assert_eq!(
        state.sessions.sessions.get(&session).unwrap().next_view_epoch,
        1
    );
}

#[test]
fn copied_tcp_reads_do_not_consume_shared_view_epochs() {
    let mut state = node();
    let session = open(&mut state, false);
    commit_inline(&mut state, b"block", b"abc");
    let resolved = resolved_value(1, 3, vec![test_extent(0, 3, b"block", 0)]);
    for inline_budget in [0, 3] {
        get(&mut state, session, &resolved, None, inline_budget).unwrap();
        assert_eq!(
            state.sessions.sessions.get(&session).unwrap().next_view_epoch,
            1
        );
    }
}

#[test]
fn finished_read_request_releases_lost_tcp_ticket_without_view_epoch() {
    let mut state = node();
    let session = open(&mut state, false);
    commit_inline(&mut state, b"block", b"abc");
    let resolved = resolved_value(1, 3, vec![test_extent(0, 3, b"block", 0)]);
    assert!(matches!(
        state
            .get_resolved_for_request(session, u64::MAX, 7, &resolved, None, false, 0, NOW)
            .unwrap(),
        GetOutcome::Ready(_)
    ));
    assert_eq!(state.downloads.len(), 1);
    state
        .heartbeat_inner(session, None, &Vec::new(), Some(7), false, false, NOW)
        .0
        .unwrap();
    assert!(state.downloads.is_empty());
    assert!(state.try_finalize_block_retirement(&vec![b"block".to_vec()]));
}

#[test]
fn cancel_first_read_request_refuses_late_ticket_creation() {
    let mut state = node();
    let session = open(&mut state, false);
    commit_inline(&mut state, b"block", b"abc");
    let resolved = resolved_value(1, 3, vec![test_extent(0, 3, b"block", 0)]);
    state
        .heartbeat_inner(session, None, &Vec::new(), Some(7), false, false, NOW)
        .0
        .unwrap();
    assert!(matches!(
        state.get_resolved_for_request(session, u64::MAX, 7, &resolved, None, false, 0, NOW),
        Err(WorkerError::InvalidArgument(_))
    ));
    assert!(state.downloads.is_empty());
}

#[test]
fn finished_read_request_releases_lost_shm_view_without_epoch_watermark() {
    let mut state = node_with(4096, true);
    let session = open(&mut state, true);
    commit_inline(&mut state, b"block", b"abc");
    let resolved = resolved_value(1, 3, vec![test_extent(0, 3, b"block", 0)]);
    assert!(matches!(
        state
            .get_resolved_for_request(session, u64::MAX, 11, &resolved, None, false, 0, NOW)
            .unwrap(),
        GetOutcome::Ready(_)
    ));
    let entry = state.sessions.sessions.get(&session).unwrap();
    assert_eq!(entry.next_view_epoch, 2);
    assert_eq!(entry.released_view_through, 0);
    assert_eq!(entry.active_views.len(), 1);
    state
        .heartbeat_inner(session, None, &Vec::new(), Some(11), false, false, NOW)
        .0
        .unwrap();
    let entry = state.sessions.sessions.get(&session).unwrap();
    assert!(entry.active_views.is_empty());
    assert_eq!(entry.released_view_through, 0);
    assert!(state.try_finalize_block_retirement(&vec![b"block".to_vec()]));
}

#[test]
fn only_successful_shared_read_tickets_consume_one_epoch() {
    let mut state = node_with(4096, true);
    let session = open(&mut state, true);
    commit_inline(&mut state, b"block", b"abcdef");
    let resolved = resolved_value(
        1,
        6,
        vec![test_extent(0, 3, b"block", 0), test_extent(3, 3, b"block", 3)],
    );
    for expected in [1, 2] {
        let ticket = ready(get(&mut state, session, &resolved, None, 0));
        assert_eq!(ticket.segments.len(), 2);
        for segment in ticket.segments {
            let ReadTarget::Shm(target) = segment.target else {
                panic!("expected shared memory")
            };
            assert_eq!(target.view_epoch, Some(expected));
        }
        assert_eq!(
            state.sessions.sessions.get(&session).unwrap().next_view_epoch,
            expected + 1
        );
    }
    get(&mut state, session, &resolved, Some((6, 0)), 0).unwrap();
    assert!(get(&mut state, session, &resolved, Some((7, 1)), 0).is_err());
    assert_eq!(
        state.sessions.sessions.get(&session).unwrap().next_view_epoch,
        3
    );
}

#[test]
fn filesystem_offset_zero_peer_miss_expands_to_full_bounded_layout() {
    let state = node();
    let first = test_extent(0, 4, b"first", 0);
    let second = test_extent(4, 4, b"second", 0);
    let layout = VersionLayout {
        version: 7,
        logical_length: 8,
        extents: vec![test_extent(0, 4, b"first", 0), second],
        digest: b"layout".to_vec(),
        kind: VersionKind::Value,
    };
    let replicas = vec![replica_set(b"first", 4), replica_set(b"second", 4)];
    let requested = vec![describe_missing_block(&replicas, &first).expect("first block has a peer")];
    let again = vec![describe_missing_block(&replicas, &first).expect("first block has a peer")];

    let expanded = state.expand_filesystem_peer_prefetch(1, &layout, &replicas, (0, 4), requested);
    assert_eq!(expanded.len(), 2);
    let random = state.expand_filesystem_peer_prefetch(1, &layout, &replicas, (4, 4), again);
    assert_eq!(random.len(), 1);
}

#[test]
fn directory_prefetch_skips_large_object_instead_of_pulling_its_prefix() {
    let state = node();
    let large_length = FILESYSTEM_DIRECTORY_PREFETCH_BYTES_MAX + 1;
    let mut large = resolved_value(7, large_length, vec![test_extent(0, large_length, b"large", 0)]);
    large.block_replicas = vec![replica_set(b"large", large_length)];
    let mut small = resolved_value(8, 4, vec![test_extent(0, 4, b"small", 0)]);
    small.block_replicas = vec![replica_set(b"small", 4)];
    let planned = state.plan_filesystem_directory_prefetch(1, &vec![large, small]);
    assert_eq!(planned.len(), 1);
    assert_eq!(planned[0].block_id, b"small".to_vec());
}

fn mixed_answer() -> ResolveObjectResponse {
    ResolveObjectResponse {
        layout: Some(VersionLayout {
            version: 7,
            logical_length: 8,
            extents: vec![test_extent(0, 4, b"local", 0), test_extent(4, 4, b"remote", 0)],
            digest: b"layout".to_vec(),
            kind: VersionKind::Value,
        }),
        block_replicas: vec![replica_set(b"remote", 4)],
        current_lease: None,
    }
}

#[test]
fn filesystem_peer_miss_reuses_installed_bytes_without_second_materialize() {
    let mut state = node();
    commit_inline(&mut state, b"local", b"left");
    let outcome = state
        .materialize_resolved_into_for_data_core(
            1,
            &mixed_answer(),
            Some((0, 8)),
            false,
            vec![0; 8],
            None,
            true,
            NOW,
        )
        .expect("build peer read plan");
    let DataCoreMaterializeOutcome::NeedsRemoteBlocks(partial) = outcome else {
        panic!("remote suffix must require peer import")
    };
    let mut output = partial.output;
    assert_eq!(&output[..4], b"left");
    assert_eq!(partial.bytes_read, 8);
    assert_eq!(partial.remote_parts.len(), 1);

    let mut imported: Table<Vec<u8>, Payload> = Table::new();
    imported.insert(
        b"remote".to_vec(),
        Payload::from_shared(prost::bytes::Bytes::from_static(b"rght")),
    );
    assert!(fill_imported_parts(&mut output, &partial.remote_parts, &imported)
        .expect("fill imported suffix"));
    assert_eq!(output, b"leftrght".to_vec());
}

#[test]
fn data_core_owned_read_does_not_bounce_through_read_into() {
    // The buffer that is handed in is the one that comes back, filled.
    let mut state = node();
    commit_inline(&mut state, b"block", b"payload");
    let resolved = resolved_value(3, 7, vec![test_extent(0, 7, b"block", 0)]);
    let mut buffer: Vec<u8> = Vec::with_capacity(1000);
    buffer.resize(7, 0);
    let address = buffer.as_ptr() as usize;
    let outcome = state
        .materialize_resolved_into_for_data_core(
            u64::MAX, &resolved, None, false, buffer, None, false, NOW,
        )
        .expect("read");
    let DataCoreMaterializeOutcome::Ready(result) = outcome else {
        panic!("block is local")
    };
    assert_eq!(result.bytes, b"payload".to_vec());
    assert_eq!(result.bytes_read, 7);
    assert_eq!(result.bytes.as_ptr() as usize, address);
    assert_eq!(result.bytes.capacity(), 1000);
}

#[test]
fn data_core_read_into_uses_caller_buffer_contract() {
    let mut state = node();
    commit_inline(&mut state, b"block", b"payload");
    let resolved = resolved_value(3, 7, vec![test_extent(0, 7, b"block", 0)]);
    let outcome = state
        .materialize_resolved_into_for_data_core(
            u64::MAX,
            &resolved,
            Some((3, 4)),
            false,
            vec![0; 4],
            None,
            false,
            NOW,
        )
        .expect("read");
    let DataCoreMaterializeOutcome::Ready(result) = outcome else {
        panic!("block is local")
    };
    assert_eq!(result.bytes_read, 4);
    assert_eq!(result.bytes, b"load".to_vec());
    let short = state
        .materialize_resolved_into_for_data_core(
            u64::MAX,
            &resolved,
            None,
            false,
            vec![0; 4],
            None,
            false,
            NOW,
        )
        .expect("read");
    assert!(matches!(
        short,
        DataCoreMaterializeOutcome::BufferTooSmall {
            version: 3,
            required: 7
        }
    ));
}

#[test]
fn a_ticket_gives_the_bytes_of_the_value() {
    let mut state = node();
    let session = open(&mut state, false);
    commit_inline(&mut state, b"base", b"abcdef");
    commit_inline(&mut state, b"patch", b"X");
    let resolved = resolved_value(
        4,
        9,
        vec![
            test_extent(0, 2, b"base", 0),
            test_extent(2, 1, b"patch", 0),
            hole_extent(3, 3),
            test_extent(6, 3, b"base", 3),
        ],
    );
    let ticket = ready(get(&mut state, session, &resolved, Some((1, 7)), 0));
    let mut value: Vec<u8> = Vec::new();
    for segment in &ticket.segments {
        assert_eq!(segment.logical_offset, value.len() as u64);
        match segment.target {
            ReadTarget::Zero { length } => value.extend(vec![0; length as usize]),
            ReadTarget::Grpc { transfer_id } => {
                value.extend(state.download(transfer_id, NOW).0.expect("download"))
            }
            ReadTarget::Shm(_) => panic!("no shared memory here"),
        }
    }
    assert_eq!(value, b"bX\0\0\0de".to_vec());
    assert!(state.downloads.is_empty());
}

#[test]
fn a_whole_value_is_read_or_its_missing_blocks_are_named() {
    let mut state = node();
    let session = open(&mut state, false);
    commit_inline(&mut state, b"local", b"left");
    let outcome = state
        .materialize_resolved(session, u64::MAX, &mixed_answer())
        .expect("plan");
    let MaterializeOutcome::NeedsRemoteBlocks(specs) = outcome else {
        panic!("the second block is missing")
    };
    assert_eq!(specs.len(), 1);
    commit_inline(&mut state, b"remote", b"rght");
    let outcome = state
        .materialize_resolved(session, u64::MAX, &mixed_answer())
        .expect("read");
    let MaterializeOutcome::Ready { version, bytes } = outcome else {
        panic!("both blocks are here")
    };
    assert_eq!(version, 7);
    assert_eq!(bytes, b"leftrght".to_vec());
    assert!(matches!(
        state.materialize_resolved(session + 1, u64::MAX, &mixed_answer()),
        Err(WorkerError::UnknownSession)
    ));
    let gone = ResolveObjectResponse {
        layout: None,
        block_replicas: Vec::new(),
        current_lease: None,
    };
    assert!(matches!(
        state.materialize_resolved(session, u64::MAX, &gone),
        Err(WorkerError::NotFound)
    ));
}

#[test]
fn an_answer_is_cached_only_with_a_current_lease() {
    let mut state = node();
    let session = open(&mut state, false);
    commit_inline(&mut state, b"block", b"abc");
    let mut resolved = resolved_value(5, 3, vec![test_extent(0, 3, b"block", 0)]);
    resolved.current_lease = Some(lease(5, 9));
    let refill = |token: u64| {
        Some(CacheRefill {
            token,
            key: b"key".to_vec(),
            requested_at: NOW,
            node_epoch: 9,
        })
    };
    // Without word from the metadata service, nothing is kept and nothing is answered.
    let token = state.current_cache.token().unwrap();
    state
        .read_resolved(session, u64::MAX, 1, &resolved, None, false, 64, refill(token), NOW)
        .unwrap();
    assert_eq!(state.current_cache.entries.len(), 0);

    trust_metadata(&mut state);
    let (token, miss) = state
        .get_cached(session, u64::MAX, 1, &b"key".to_vec(), 9, None, false, 64, NOW)
        .unwrap();
    assert!(matches!(miss, CachedReadOutcome::Miss));
    state
        .read_resolved(
            session,
            u64::MAX,
            1,
            &resolved,
            None,
            false,
            64,
            refill(token.unwrap()),
            NOW,
        )
        .unwrap();
    assert_eq!(state.current_cache.entries.len(), 1);
    let (_, hit) = state
        .get_cached_for_data_core(
            u64::MAX,
            &b"key".to_vec(),
            9,
            None,
            None,
            false,
            vec![0; 3],
            NOW,
        )
        .unwrap();
    let DataCoreCachedReadOutcome::Ready(result) = hit else {
        panic!("the answer is cached")
    };
    assert_eq!(result.bytes, b"abc".to_vec());
    assert_eq!(result.version, 5);

    // A newer version makes the cached one useless, and a late answer is not taken.
    let late = state.current_cache.token().unwrap();
    state.current_cache.invalidate_before(&b"key".to_vec(), 6);
    state
        .read_resolved(session, u64::MAX, 1, &resolved, None, false, 64, refill(late), NOW)
        .unwrap();
    let (_, miss) = state
        .get_cached(session, u64::MAX, 1, &b"key".to_vec(), 9, None, false, 64, NOW)
        .unwrap();
    assert!(matches!(miss, CachedReadOutcome::Miss));
}

#[test]
fn missing_block_keeps_all_http_candidates_and_receipt_records_successful_source() {
    let extent = test_extent(0, 4, b"remote-block", 0);
    let location = |node_id: u64, node_epoch: u64, endpoint: &str| ReplicaLocation {
        block_id: b"remote-block".to_vec(),
        node_id,
        node_epoch,
        data_endpoint: endpoint.to_string(),
        checksum: b"remote-block".to_vec(),
        durability: DurabilityPolicy::LocalMemory,
    };
    let replicas = vec![BlockReplicaSet {
        block_id: b"remote-block".to_vec(),
        replicas: vec![
            location(10, 99, "uds://dead-replica"),
            location(11, 100, "http://127.0.0.1:25299"),
            location(12, 101, "http://127.0.0.1:25300"),
        ],
        length: 4,
        proofs: Vec::new(),
    }];
    let spec = describe_missing_block(&replicas, &extent).expect("select remote replica");
    assert_eq!(spec.sources.len(), 2);
    assert_eq!(spec.sources[0].endpoint, "http://127.0.0.1:25299");
    assert_eq!(spec.sources[1].endpoint, "http://127.0.0.1:25300");
    assert_eq!(
        dms_node::peer_pull::source_selection_receipt(&spec.block_id, &spec.sources[1]),
        "block_id=72656d6f74652d626c6f636b node_id=12 node_epoch=101\n"
    );
}

#[test]
fn a_part_starts_where_it_says() {
    assert_eq!(
        data_core_planned_read_part_offset(&DataCorePlannedReadPart::Zero {
            logical_offset: 3,
            length: 1
        }),
        3
    );
    assert_eq!(
        data_core_planned_read_part_offset(&DataCorePlannedReadPart::Remote {
            logical_offset: 9,
            block_id: b"block".to_vec(),
            block_offset: 1,
            length: 2
        }),
        9
    );
}

#[test]
fn a_download_keeps_its_session() {
    let mut state = node();
    let session = open(&mut state, false);
    assert!(!state.session_has_retained_obligations(session));
    commit_inline(&mut state, b"block", b"abc");
    let resolved = resolved_value(1, 3, vec![test_extent(0, 3, b"block", 0)]);
    let ticket = ready(get(&mut state, session, &resolved, None, 0));
    assert!(state.session_has_retained_obligations(session));
    let ReadTarget::Grpc { transfer_id } = ticket.segments[0].target else {
        panic!("the bytes are downloaded")
    };
    assert_eq!(state.download(transfer_id, NOW).0, Ok(b"abc".to_vec()));
    assert!(!state.session_has_retained_obligations(session));
}
