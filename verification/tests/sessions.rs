use dms_node::arena::HostRegionGrant;
use dms_node::error::WorkerError;
use dms_node::limits::GRPC_PAYLOAD_SAFE_BYTES;
use dms_node::namespace::NamespaceAction;
use dms_node::node::NodeState;
use dms_node::node_session::{HostAllocationTarget, NodeTaskConfig};
use dms_node::protocol::{CurrentLeaseGrant, ResolveObjectResponse, VersionKind, VersionLayout};
use dms_node::session::{
    normalize_session_start, BarrierWait, CLIENT_CACHE_INTEREST_BYTES_LIMIT,
    CLIENT_CACHE_INTEREST_KEY_LIMIT, SESSION_ID_START_SPACE,
};
use dms_node::version_layout::data_extent;

const MILLI: u64 = 1_000_000;
const SECOND: u64 = 1_000 * MILLI;
const NOW: u64 = 1_000 * SECOND;

fn config(arena_capacity_bytes: u64, shared_memory: bool) -> NodeTaskConfig {
    NodeTaskConfig {
        arena_capacity_bytes,
        staging_ttl: 30 * SECOND,
        client_cache_lease_ttl: SECOND,
        node_current_cache_bytes: 1 << 20,
        node_current_cache_ttl: 5 * SECOND,
        shared_memory,
    }
}

fn node(name: &str, capacity: u64) -> NodeState {
    NodeState::new(name.to_string(), false, &config(capacity, false), 7, NOW)
}

fn open(state: &mut NodeState, shared_memory: bool) -> u64 {
    state
        .open_session_with_write_release(shared_memory, false)
        .expect("session id is available")
}

fn set_cache_until(state: &mut NodeState, session: u64, until: Option<u64>) {
    let mut entry = state.sessions.sessions.remove(&session).expect("session");
    entry.cache_until = until;
    state.sessions.sessions.insert(session, entry);
}

fn beat(
    state: &mut NodeState,
    session: u64,
    released: Option<u64>,
    renew: bool,
) -> Result<u64, WorkerError> {
    state
        .heartbeat_inner(session, released, &Vec::new(), None, renew, false, NOW)
        .0
}

#[test]
fn session_start_differs_across_injected_incarnations() {
    let mut first = NodeState::new(
        "node-a".to_string(),
        false,
        &config(4096, false),
        0x1111_2222_3333_4444,
        NOW,
    );
    let mut second = NodeState::new(
        "node-a".to_string(),
        false,
        &config(4096, false),
        0x5555_6666_7777_8888,
        NOW,
    );
    let first_session = open(&mut first, false);
    let second_session = open(&mut second, false);
    assert_ne!(first_session, second_session);
    assert_ne!(first_session, 0);
    assert_ne!(second_session, 0);
}

#[test]
fn session_ids_are_monotonic_inside_one_incarnation() {
    let mut state = NodeState::new(
        "node-a".to_string(),
        false,
        &config(4096, false),
        0x2222_3333_4444_5555,
        NOW,
    );
    let first = open(&mut state, false);
    let second = open(&mut state, false);
    assert_eq!(second, first + 1);
}

#[test]
fn session_id_start_normalizes_zero_and_overflow_boundary() {
    assert_eq!(normalize_session_start(0), 1);
    let near_overflow = normalize_session_start(u64::MAX);
    assert_ne!(near_overflow, 0);
    assert!(near_overflow <= SESSION_ID_START_SPACE);

    let mut state = node("node-a", 4096);
    state.sessions.next_session = 0;
    assert_eq!(open(&mut state, false), 1);

    state.sessions.next_session = u64::MAX;
    assert!(matches!(
        state.open_session_with_write_release(false, false),
        Err(WorkerError::ResourceExhausted)
    ));
}

#[test]
fn disconnected_session_cannot_create_new_staging_or_reattach() {
    let mut state = node("n", 4096);
    let session = open(&mut state, false);
    set_cache_until(&mut state, session, Some(NOW + SECOND));
    state.close_session(session, NOW);
    assert!(matches!(
        state.allocate_staging(session, 4, b"token".to_vec(), NOW),
        Err(WorkerError::UnknownSession)
    ));
    assert!(matches!(
        state.attach_session(session),
        Err(WorkerError::UnknownSession)
    ));
    set_cache_until(&mut state, session, Some(NOW));
    state.expire_cache_leases(NOW);
    assert!(!state.sessions.sessions.contains(&session));
    assert!(matches!(
        state.allocate_staging(session, 4, b"token".to_vec(), NOW),
        Err(WorkerError::UnknownSession)
    ));
}

#[test]
fn disconnected_client_obligation_ends_only_at_granted_cache_deadline() {
    let mut state = node("n", 4096);
    let session = open(&mut state, false);
    state.attach_session(session).unwrap();
    state.metadata_watch_connected = true;
    state.metadata_lease_until = NOW + 5 * SECOND;
    let ttl = beat(&mut state, session, None, true).unwrap();
    assert!(ttl > 0 && ttl <= 1000);
    let granted = state
        .sessions
        .sessions
        .get(&session)
        .unwrap()
        .cache_until
        .unwrap();
    beat(&mut state, session, None, false).unwrap();
    assert_eq!(
        state.sessions.sessions.get(&session).unwrap().cache_until,
        Some(granted)
    );
    let mut entry = state.sessions.sessions.remove(&session).unwrap();
    entry.cached_current_keys.insert(b"key".to_vec());
    entry.cached_current_key_bytes += 3;
    state.sessions.sessions.insert(session, entry);
    let sent = state.broadcast_invalidation(&b"key".to_vec(), 2, NOW);
    let barrier = sent.barrier_id.unwrap();
    assert_eq!(sent.deliveries.len(), 1);
    state.delivery_failed(&vec![session]);
    state.close_session(session, NOW);
    assert!(state.sessions.barriers.contains(&barrier));
    assert!(beat(&mut state, session, None, true).is_err());
    set_cache_until(&mut state, session, Some(NOW));
    state.expire_cache_leases(NOW);
    assert!(!state.sessions.barriers.contains(&barrier));
    assert!(!state.sessions.sessions.contains(&session));
}

#[test]
fn disconnected_cached_session_does_not_block_unrelated_key() {
    let mut state = node("n", 4096);
    let session = open(&mut state, false);
    set_cache_until(&mut state, session, Some(NOW + 5 * SECOND));
    state
        .sessions
        .register_cache_interest(session, &b"model/a".to_vec())
        .unwrap();
    state.close_session(session, NOW);
    assert_eq!(
        state
            .broadcast_invalidation(&b"model/b".to_vec(), 2, NOW)
            .barrier_id,
        None
    );
    assert!(state
        .broadcast_invalidation(&b"model/a".to_vec(), 2, NOW)
        .barrier_id
        .is_some());
}

#[test]
fn acknowledgement_does_not_clear_current_cache_interest() {
    let mut state = node("n", 4096);
    let session = open(&mut state, false);
    state.attach_session(session).unwrap();
    set_cache_until(&mut state, session, Some(NOW + 5 * SECOND));
    state
        .sessions
        .register_cache_interest(session, &b"model/a".to_vec())
        .unwrap();

    let sent = state.broadcast_invalidation(&b"model/a".to_vec(), 2, NOW);
    let barrier = sent.barrier_id.unwrap();
    let sequence = sent.deliveries[0].event.event_sequence;
    assert_eq!(
        state.sessions.attach_barrier_waiter(barrier, 44),
        BarrierWait::Waiting
    );
    assert_eq!(state.acknowledge(session, sequence).unwrap(), vec![44]);
    assert!(state
        .sessions
        .sessions
        .get(&session)
        .unwrap()
        .cached_current_keys
        .contains(&b"model/a".to_vec()));
    assert!(state
        .broadcast_invalidation(&b"model/a".to_vec(), 3, NOW)
        .barrier_id
        .is_some());
}

#[test]
fn cache_grants_require_watch_and_are_bounded_by_meta_lease() {
    let mut state = node("n", 4096);
    let session = open(&mut state, false);
    state.attach_session(session).unwrap();
    state.metadata_lease_until = NOW + 200 * MILLI;
    assert_eq!(beat(&mut state, session, None, true).unwrap(), 0);
    state.metadata_watch_connected = true;
    let ttl = beat(&mut state, session, None, true).unwrap();
    assert!(ttl > 0 && ttl <= 200);
    assert!(
        state
            .sessions
            .sessions
            .get(&session)
            .unwrap()
            .cache_until
            .unwrap()
            <= state.metadata_lease_until
    );
    state.client_cache_lease_ttl = 20 * MILLI;
    let configured_ttl = beat(&mut state, session, None, true).unwrap();
    assert!(configured_ttl > 0 && configured_ttl <= 20);
}

fn cached_answer() -> ResolveObjectResponse {
    ResolveObjectResponse {
        layout: Some(VersionLayout {
            version: 7,
            logical_length: 4,
            extents: vec![data_extent(0, 4, b"block-a".to_vec(), 0, b"block-a".to_vec())],
            digest: b"test-digest".to_vec(),
            kind: VersionKind::Value,
        }),
        block_replicas: Vec::new(),
        current_lease: Some(CurrentLeaseGrant {
            version: 7,
            revision: 1,
            lease_epoch: 42,
            ttl_millis: 5_000,
            leader_epoch: 0,
        }),
    }
}

#[test]
fn metadata_watch_reset_clears_node_current_cache() {
    let mut state = node("n", 4096);
    let token = state.current_cache.token().unwrap();
    let resolved = cached_answer();
    assert!(state
        .current_cache
        .insert(token, b"key-a".to_vec(), &resolved, NOW, 42, NOW));
    assert!(state.current_cache.charged() > 0);

    state.reset_current_cache_for_watch(false);

    assert_eq!(state.current_cache.charged(), 0);
    assert!(state
        .current_cache
        .get(&b"key-a".to_vec(), 42, NOW)
        .is_none());
}

#[test]
fn metadata_watch_reset_clears_filesystem_grant_caches() {
    let mut state = node("n", 4096);
    assert_eq!(
        state.reset_current_cache_for_watch(false),
        vec![NamespaceAction::ForgetAll]
    );
    assert_eq!(
        state.note_metadata_lease(Some(NOW + SECOND), Some(true)),
        vec![NamespaceAction::ForgetAll]
    );
    assert_eq!(
        state.note_metadata_lease(Some(NOW + 2 * SECOND), None),
        Vec::new()
    );
    assert!(state.metadata_watch_connected);
    assert_eq!(state.metadata_lease_until, NOW + 2 * SECOND);
}

#[test]
fn metadata_watch_reconnect_requires_replayed_events_to_be_acked_before_new_grant() {
    let mut state = node("n", 4096);
    let session = open(&mut state, false);
    state.attach_session(session).unwrap();
    state.metadata_lease_until = NOW + 5 * SECOND;
    state.reset_current_cache_for_watch(true);
    assert!(beat(&mut state, session, None, true).unwrap() > 0);
    state
        .sessions
        .register_cache_interest(session, &b"model/a".to_vec())
        .unwrap();

    let sent = state.broadcast_invalidation(&b"model/a".to_vec(), 2, NOW);
    let barrier = sent
        .barrier_id
        .expect("registered cache interest must create invalidation barrier");
    let sequence = sent.deliveries[0].event.event_sequence;

    set_cache_until(&mut state, session, None);
    state.reset_current_cache_for_watch(false);
    assert_eq!(beat(&mut state, session, None, true).unwrap(), 0);
    state.reset_current_cache_for_watch(true);
    assert_eq!(beat(&mut state, session, None, true).unwrap(), 0);

    assert_eq!(
        state.sessions.attach_barrier_waiter(barrier, 5),
        BarrierWait::Waiting
    );
    assert_eq!(state.acknowledge(session, sequence).unwrap(), vec![5]);
    assert!(beat(&mut state, session, None, true).unwrap() > 0);
}

#[test]
fn cache_interest_overflow_degrades_to_lease_bounded_wildcard() {
    let mut state = node("n", 4096);
    let session = open(&mut state, false);
    set_cache_until(&mut state, session, Some(NOW + 5 * SECOND));

    for index in 0..=CLIENT_CACHE_INTEREST_KEY_LIMIT {
        state
            .sessions
            .register_cache_interest(session, &format!("key-{index}").into_bytes())
            .unwrap();
    }

    let entry = state.sessions.sessions.get(&session).unwrap();
    assert!(entry.cache_interest_all);
    assert_eq!(entry.cached_current_keys.len(), 0);
    assert_eq!(entry.cached_current_key_bytes, 0);
    assert!(state
        .broadcast_invalidation(&b"unseen-key".to_vec(), 2, NOW)
        .barrier_id
        .is_some());

    set_cache_until(&mut state, session, Some(NOW));
    state.expire_cache_leases(NOW);
    let entry = state.sessions.sessions.get(&session).unwrap();
    assert!(!entry.cache_interest_all);
    assert_eq!(entry.cached_current_keys.len(), 0);
    assert_eq!(entry.cached_current_key_bytes, 0);
    assert_eq!(
        state
            .broadcast_invalidation(&b"unseen-key".to_vec(), 3, NOW)
            .barrier_id,
        None
    );
}

#[test]
fn cache_interest_large_keys_degrade_to_lease_bounded_wildcard() {
    let mut state = node("n", 4096);
    let session = open(&mut state, false);
    set_cache_until(&mut state, session, Some(NOW + 5 * SECOND));
    state
        .sessions
        .register_cache_interest(session, &vec![b'x'; CLIENT_CACHE_INTEREST_BYTES_LIMIT + 1])
        .unwrap();
    let entry = state.sessions.sessions.get(&session).unwrap();
    assert!(entry.cache_interest_all);
    assert_eq!(entry.cached_current_keys.len(), 0);
    assert_eq!(entry.cached_current_key_bytes, 0);
    assert!(state
        .broadcast_invalidation(&b"unseen-key".to_vec(), 2, NOW)
        .barrier_id
        .is_some());
}

#[test]
fn expired_interest_must_register_again_after_new_cache_lease() {
    let mut state = node("n", 4096);
    let session = open(&mut state, false);
    state.attach_session(session).unwrap();
    state.metadata_watch_connected = true;
    state.metadata_lease_until = NOW + 5 * SECOND;

    assert!(beat(&mut state, session, None, true).unwrap() > 0);
    state
        .sessions
        .register_cache_interest(session, &b"model/a".to_vec())
        .unwrap();
    let sent = state.broadcast_invalidation(&b"model/a".to_vec(), 2, NOW);
    assert!(sent.barrier_id.is_some());
    let sequence = sent.deliveries[0].event.event_sequence;
    state.acknowledge(session, sequence).unwrap();

    set_cache_until(&mut state, session, Some(NOW));
    state.expire_cache_leases(NOW);
    assert!(beat(&mut state, session, None, true).unwrap() > 0);
    assert_eq!(
        state
            .broadcast_invalidation(&b"model/a".to_vec(), 3, NOW)
            .barrier_id,
        None
    );

    state
        .sessions
        .register_cache_interest(session, &b"model/a".to_vec())
        .unwrap();
    assert!(state
        .broadcast_invalidation(&b"model/a".to_vec(), 4, NOW)
        .barrier_id
        .is_some());
}

#[test]
fn next_cache_lease_expiry_uses_earliest_live_deadline() {
    let mut state = node("n", 4096);
    let first = open(&mut state, false);
    let second = open(&mut state, false);
    let later = NOW + 5 * SECOND;
    let earlier = NOW + 25 * MILLI;
    set_cache_until(&mut state, first, Some(later));
    set_cache_until(&mut state, second, Some(earlier));
    assert_eq!(state.sessions.next_cache_lease_expiry(), Some(earlier));
}

#[test]
fn tcp_staging_rejects_payload_above_grpc_safe_budget_before_arena_allocation() {
    let mut state = node("node-a", GRPC_PAYLOAD_SAFE_BYTES + 4096);
    let session = open(&mut state, false);
    let error = state
        .allocate_staging(session, GRPC_PAYLOAD_SAFE_BYTES + 1, b"token".to_vec(), NOW)
        .expect_err("uploads are bounded before memory is set aside");
    assert!(matches!(error, WorkerError::ResourceExhausted));
    assert_eq!(state.arena.used, 0);
}

#[test]
fn shm_staging_can_exceed_grpc_safe_budget() {
    let mut state = NodeState::new(
        "node-a".to_string(),
        false,
        &config(GRPC_PAYLOAD_SAFE_BYTES + 4096, true),
        7,
        NOW,
    );
    let session = open(&mut state, true);
    let allocation = state
        .allocate_staging(session, GRPC_PAYLOAD_SAFE_BYTES + 1, b"token".to_vec(), NOW)
        .expect("shared memory is not bounded by one message");
    assert!(matches!(allocation.target, HostAllocationTarget::Shm(_)));
}

#[test]
fn what_a_client_wrote_through_a_mapping_becomes_a_block() {
    let mut state = NodeState::new(
        "node-a".to_string(),
        false,
        &config(2 * GRPC_PAYLOAD_SAFE_BYTES + 4096, true),
        7,
        NOW,
    );
    let session = open(&mut state, true);
    let bytes = vec![5u8; GRPC_PAYLOAD_SAFE_BYTES as usize + 1];
    let allocation = state
        .allocate_staging(session, bytes.len() as u64, b"token".to_vec(), NOW)
        .unwrap();
    assert!(matches!(
        state.upload(allocation.transfer_id, bytes.clone()),
        Err(WorkerError::ResourceExhausted)
    ));
    assert!(matches!(
        state.fill_mapped(allocation.transfer_id, b"short".to_vec()),
        Err(WorkerError::ArenaInvalidRequest)
    ));
    let receipt = state
        .fill_mapped(allocation.transfer_id, bytes.clone())
        .unwrap();
    assert_eq!(receipt.length, bytes.len() as u64);
    assert_eq!(receipt.digest, dms_node::digest::digest(&bytes));
    state
        .arena
        .commit_staging(session, allocation.staging_id, &receipt, b"block".to_vec())
        .unwrap();
    let (ticket, _) = state.arena.open_read(&b"block".to_vec(), None).unwrap();
    assert_eq!(state.arena.read_ticket(ticket).unwrap(), bytes);
    assert!(matches!(
        state.fill_mapped(allocation.transfer_id, bytes),
        Err(WorkerError::UnknownTransfer)
    ));
    let other = open(&mut state, false);
    let sent = state
        .allocate_staging(other, 1, b"token".to_vec(), NOW)
        .unwrap();
    assert!(matches!(
        state.fill_mapped(sent.transfer_id, b"x".to_vec()),
        Err(WorkerError::InvalidArgument(
            "payload is not written through a mapping"
        ))
    ));
}

#[test]
fn close_session_reclaims_owned_staging() {
    let mut state = node("node-a", 4096);
    let session = open(&mut state, false);
    let allocation = state
        .allocate_staging(session, 5, b"token".to_vec(), NOW)
        .expect("allocate staging");
    state.close_session(session, NOW);
    assert_eq!(state.arena.stagings.len(), 0);
    assert_eq!(state.arena.used, 0);
    assert!(matches!(
        state.delete_staging(session, allocation.staging_id),
        Err(WorkerError::UnknownSession)
    ));
}

#[test]
fn invalidation_barrier_completes_only_after_every_session_ack() {
    let mut state = node("node-a", 256 * 1024 * 1024);
    let first = open(&mut state, false);
    let second = open(&mut state, false);
    for session in [first, second] {
        let mut entry = state.sessions.sessions.remove(&session).unwrap();
        entry.cache_until = Some(NOW + 5 * SECOND);
        entry
            .cached_current_keys
            .insert(b"checkpoint/latest".to_vec());
        state.sessions.sessions.insert(session, entry);
        state.attach_session(session).expect("attach");
    }
    let sent = state.broadcast_invalidation(&b"checkpoint/latest".to_vec(), 2, NOW);
    let barrier = sent.barrier_id.expect("barrier");
    assert_eq!(sent.deliveries.len(), 2);
    let sequence_of = |session: u64| {
        sent.deliveries
            .iter()
            .find(|delivery| delivery.session_id == session)
            .expect("event")
            .event
            .event_sequence
    };
    assert_eq!(
        state.sessions.attach_barrier_waiter(barrier, 9),
        BarrierWait::Waiting
    );
    assert_eq!(
        state.acknowledge(first, sequence_of(first)).unwrap(),
        Vec::<u64>::new()
    );
    assert_eq!(
        state.acknowledge(second, sequence_of(second)).unwrap(),
        vec![9]
    );
    assert_eq!(
        state.sessions.attach_barrier_waiter(barrier, 10),
        BarrierWait::Over
    );
}

#[test]
fn heartbeat_rejects_view_watermark_beyond_granted_epoch() {
    let mut state = node("node-a", 4096);
    let session = open(&mut state, true);
    assert!(beat(&mut state, session, Some(1), false).is_err());
    assert_eq!(
        state
            .sessions
            .sessions
            .get(&session)
            .unwrap()
            .released_view_through,
        0
    );
}

#[test]
fn a_barrier_has_one_waiter() {
    let mut state = node("n", 4096);
    let session = open(&mut state, false);
    set_cache_until(&mut state, session, Some(NOW + SECOND));
    state
        .sessions
        .register_cache_interest(session, &b"k".to_vec())
        .unwrap();
    let barrier = state
        .broadcast_invalidation(&b"k".to_vec(), 2, NOW)
        .barrier_id
        .unwrap();
    assert_eq!(
        state.sessions.attach_barrier_waiter(barrier, 1),
        BarrierWait::Waiting
    );
    assert_eq!(
        state.sessions.attach_barrier_waiter(barrier, 2),
        BarrierWait::Taken
    );
    // The lease ends the wait, acknowledged or not.
    assert_eq!(state.expire_cache_leases(NOW + SECOND), vec![1]);
}

#[test]
fn an_acknowledgement_never_goes_back() {
    let mut state = node("n", 4096);
    let session = open(&mut state, false);
    state.attach_session(session).unwrap();
    state.acknowledge(session, 5).unwrap();
    state.acknowledge(session, 3).unwrap();
    assert_eq!(state.sessions.sessions.get(&session).unwrap().last_ack, 5);
    assert!(matches!(
        state.acknowledge(session + 1, 1),
        Err(WorkerError::UnknownSession)
    ));
}

#[test]
fn unsupported_and_unknown_write_returns_are_refused() {
    let mut state = node("n", 4096);
    let session = open(&mut state, false);
    let released = vec![dms_node::arena::ReleasedWriteAllocation {
        allocation_id: 1,
        release_token: vec![1],
    }];
    let (answer, waiters) =
        state.heartbeat_inner(session, None, &released, None, false, false, NOW);
    assert!(matches!(answer, Err(WorkerError::InvalidArgument(_))));
    assert!(waiters.is_empty());
    let able = state
        .open_session_with_write_release(true, true)
        .expect("session");
    assert!(state
        .heartbeat_inner(able, None, &released, None, false, false, NOW)
        .0
        .is_err());
    assert!(matches!(
        beat(&mut state, 999, None, false),
        Err(WorkerError::UnknownSession)
    ));
}

#[test]
fn staged_payloads_expire() {
    let mut state = node("n", 4096);
    let session = open(&mut state, false);
    let allocation = state.allocate_staging(session, 3, b"token".to_vec(), NOW).unwrap();
    assert_eq!(state.arena.used, 3);
    state.tick(NOW + 29 * SECOND);
    assert_eq!(state.arena.stagings.len(), 1);
    state.tick(NOW + 30 * SECOND);
    assert_eq!(state.arena.stagings.len(), 0);
    assert_eq!(state.arena.used, 0);
    assert!(matches!(
        state.upload(allocation.transfer_id, b"abc".to_vec()),
        Err(WorkerError::UnknownTransfer)
    ));
    assert!(matches!(
        state.allocate_staging(session, 0, b"token".to_vec(), NOW),
        Err(WorkerError::InvalidArgument("value must not be empty"))
    ));
    assert!(matches!(
        state.allocate_staging(session, 5000, b"token".to_vec(), NOW),
        Err(WorkerError::ResourceExhausted)
    ));
}

#[test]
fn a_staged_payload_is_taken_once_and_only_with_its_receipt() {
    let mut state = node("n", 4096);
    let session = open(&mut state, false);
    let allocation = state.allocate_staging(session, 3, b"token".to_vec(), NOW).unwrap();
    assert!(matches!(
        state.upload(allocation.transfer_id, b"abcd".to_vec()),
        Err(WorkerError::ArenaInvalidRequest)
    ));
    let receipt = state.upload(allocation.transfer_id, b"abc".to_vec()).unwrap();
    assert_eq!(receipt.length, 3);
    assert_eq!(receipt.digest, dms_node::digest::digest(b"abc"));
    let mut wrong = receipt.duplicate();
    wrong.digest[0] ^= 1;
    assert!(state
        .consume_staging(session, allocation.staging_id, &wrong)
        .is_err());
    assert_eq!(
        state
            .consume_staging(session, allocation.staging_id, &receipt)
            .unwrap(),
        b"abc".to_vec()
    );
    assert!(matches!(
        state.consume_staging(session, allocation.staging_id, &receipt),
        Err(WorkerError::UnknownStaging)
    ));
    assert!(matches!(
        state.acquire_region(session, allocation.staging_id),
        Err(WorkerError::UnknownSession)
    ));
}

#[test]
fn a_session_maps_what_it_was_told_of_and_nothing_else() {
    let mut state = NodeState::new("node-a".to_string(), false, &config(4096, true), 7, NOW);
    let session = open(&mut state, true);
    let other = open(&mut state, true);
    let allocation = state
        .allocate_staging(session, 3, b"token".to_vec(), NOW)
        .unwrap();
    let region = allocation.staging_id;
    assert_eq!(
        state.acquire_region(session, region),
        Ok(HostRegionGrant {
            region_id: region,
            length: 3,
            writable: true
        })
    );
    assert_eq!(
        state.acquire_region(other, region),
        Err(WorkerError::ArenaAccessDenied)
    );
    assert_eq!(
        state.acquire_region(session, region + 1),
        Err(WorkerError::ArenaStaleHandle)
    );
    let receipt = state
        .fill_mapped(allocation.transfer_id, b"abc".to_vec())
        .unwrap();
    state
        .arena
        .commit_staging(session, allocation.staging_id, &receipt, b"block".to_vec())
        .unwrap();
    assert_eq!(
        state.acquire_region(other, region),
        Ok(HostRegionGrant {
            region_id: region,
            length: 3,
            writable: false
        })
    );
    assert_eq!(
        state.acquire_region(other + 1, region),
        Err(WorkerError::UnknownSession)
    );
    state.arena.shared = false;
    assert_eq!(
        state.acquire_region(other, region),
        Err(WorkerError::ArenaShmUnavailable)
    );
}

fn mapped_block(
    state: &mut NodeState,
    able: bool,
) -> (u64, dms_node::arena::ReleasedWriteAllocation) {
    let session = state
        .open_session_with_write_release(true, able)
        .expect("open a session with shared memory");
    let allocation = state
        .allocate_staging(session, 1, b"token".to_vec(), NOW)
        .unwrap();
    let HostAllocationTarget::Shm(mapping) = allocation.target else {
        panic!("expected SHM staging")
    };
    let receipt = state.upload(allocation.transfer_id, b"x".to_vec()).unwrap();
    assert_eq!(receipt.release_token, b"token".to_vec());
    let counted = state.receipt_for_session(session, &receipt).unwrap();
    state
        .arena
        .commit_staging(session, allocation.staging_id, &counted, b"block".to_vec())
        .unwrap();
    assert_eq!(
        state.arena.block_allocation_id(&b"block".to_vec()),
        Some(mapping.allocation_id)
    );
    (session, mapping)
}

#[test]
fn final_retirement_waits_for_write_release_token() {
    let mut state = NodeState::new("node-a".to_string(), false, &config(4096, true), 7, NOW);
    let (session, release) = mapped_block(&mut state, true);
    assert!(!state.try_finalize_block_retirement(&vec![b"block".to_vec()]));
    state
        .heartbeat_inner(session, None, &vec![release], None, false, false, NOW)
        .0
        .unwrap();
    assert!(state.try_finalize_block_retirement(&vec![b"block".to_vec()]));
}

#[test]
fn a_mapping_is_given_back_only_with_its_token() {
    let mut state = NodeState::new("node-a".to_string(), false, &config(4096, true), 7, NOW);
    let (session, mut release) = mapped_block(&mut state, true);
    release.release_token = b"other".to_vec();
    let refused = state.heartbeat_inner(
        session,
        None,
        &vec![release],
        None,
        false,
        false,
        NOW,
    );
    assert!(refused.0.is_err());
    assert!(!state.try_finalize_block_retirement(&vec![b"block".to_vec()]));
}

#[test]
fn a_session_that_returns_no_mappings_keeps_the_block_writable() {
    let mut state = NodeState::new("node-a".to_string(), false, &config(4096, true), 7, NOW);
    let (session, release) = mapped_block(&mut state, false);
    assert!(matches!(
        state
            .heartbeat_inner(session, None, &vec![release], None, false, false, NOW)
            .0,
        Err(WorkerError::InvalidArgument(
            "write lease release was not negotiated"
        ))
    ));
    assert!(!state.try_finalize_block_retirement(&vec![b"block".to_vec()]));
}
