use dms_node::digest::digest;
use dms_node::error::{ArenaError, WorkerError};
use dms_node::node::NodeState;
use dms_node::node_read::{GetOutcome, ReadTarget};
use dms_node::node_session::NodeTaskConfig;
use dms_node::payload::Payload;
use dms_node::peer_import::{ImportStart, PeerImportFailure, PeerPullSpec};
use dms_node::protocol::{ResolveObjectResponse, VersionKind, VersionLayout};
use dms_node::pull_plan::PeerImportCompletion;
use dms_node::replica_transfer::ReplicaTransferState;
use dms_node::retirement::RetirementReply;
use dms_node::table::KeySet;
use dms_node::version_layout::data_extent;

const SECOND: u64 = 1_000_000_000;
const NOW: u64 = 1_000 * SECOND;

fn node_with(capacity: u64, shared_memory: bool) -> NodeState {
    NodeState::new(
        "node-a".to_string(),
        false,
        &NodeTaskConfig {
            arena_capacity_bytes: capacity,
            staging_ttl: 30 * SECOND,
            client_cache_lease_ttl: SECOND,
            node_current_cache_bytes: 1 << 20,
            node_current_cache_ttl: 5 * SECOND,
            shared_memory,
        },
        7,
        NOW,
    )
}

fn node() -> NodeState {
    node_with(4096, false)
}

fn open(state: &mut NodeState, shared_memory: bool) -> u64 {
    state
        .open_session_with_write_release(shared_memory, false)
        .expect("session id is available")
}

fn commit_inline(state: &mut NodeState, block_id: &[u8], bytes: &[u8]) {
    state
        .arena
        .commit_inline_with_verified_digest(block_id.to_vec(), bytes.to_vec(), digest(bytes))
        .expect("commit block");
}

fn read_bytes(state: &NodeState, block_id: &[u8]) -> Option<Vec<u8>> {
    let (ticket, _) = state.arena.open_read(&block_id.to_vec(), None).ok()?;
    state.arena.read_ticket(ticket).ok()
}

fn nobody() -> KeySet<u64> {
    KeySet::new()
}

fn source(block_id: &[u8], bytes: &[u8]) -> PeerPullSpec {
    PeerPullSpec::single_source(
        "http://127.0.0.1:25299".to_string(),
        block_id.to_vec(),
        digest(bytes),
        bytes.len() as u64,
    )
}

fn one_block_value(version: u64, length: u64, block_id: &[u8]) -> ResolveObjectResponse {
    ResolveObjectResponse {
        layout: Some(VersionLayout {
            version,
            logical_length: length,
            extents: vec![data_extent(0, length, block_id.to_vec(), 0, block_id.to_vec())],
            digest: b"test-digest".to_vec(),
            kind: VersionKind::Value,
        }),
        block_replicas: Vec::new(),
        current_lease: None,
    }
}

fn get(state: &mut NodeState, session: u64, resolved: &ResolveObjectResponse) -> GetOutcome {
    state
        .get_resolved(session, resolved, None, 0, NOW)
        .expect("get resolved")
}

fn download_id(outcome: GetOutcome) -> u64 {
    let GetOutcome::Ready(ticket) = outcome else {
        panic!("local block must be ready")
    };
    match ticket.segments[0].target {
        ReadTarget::Grpc { transfer_id } => transfer_id,
        ReadTarget::Shm(_) => panic!("expected a download"),
        ReadTarget::Zero { .. } => panic!("expected data"),
    }
}

fn block() -> Vec<Vec<u8>> {
    vec![b"block".to_vec()]
}

#[test]
fn peer_import_metrics_return_to_baseline_after_state_changes() {
    let mut state = node();
    let session = open(&mut state, false);
    let scope = state.begin_read_scope(session).unwrap();
    let spec = PeerPullSpec::single_source(
        "http://127.0.0.1:19999".to_string(),
        b"remote-block".to_vec(),
        digest(b"payload"),
        b"payload".len() as u64,
    );
    let counts = |state: &NodeState| {
        (
            state.imports.flights.len(),
            state.imports.bytes,
            state.imports.failures.len(),
            state.downloads.len(),
        )
    };
    assert_eq!(
        state.begin_peer_import(scope, &spec, 1, &nobody()),
        ImportStart::Started(1)
    );
    assert_eq!(counts(&state), (1, b"payload".len() as u64, 0, 0));

    let failure = PeerImportFailure::terminal(WorkerError::TransferUnavailable);
    let (told, _) = state.complete_peer_import(&spec.block_id, 1, Some(&failure));
    assert_eq!(told, vec![1]);
    assert_eq!(counts(&state), (0, 0, 1, 0));

    state.finish_read_scope(scope);
    assert_eq!(counts(&state), (0, 0, 0, 0));

    commit_inline(&mut state, b"local-block", b"local");
    let resolved = one_block_value(1, 5, b"local-block");
    let transfer_id = download_id(get(&mut state, session, &resolved));
    assert_eq!(counts(&state), (0, 0, 0, 1));
    assert_eq!(state.download(transfer_id, NOW).0.unwrap(), b"local".to_vec());
    assert_eq!(counts(&state), (0, 0, 0, 0));
}

#[test]
fn peer_import_validates_owned_bytes_before_publishing() {
    let mut state = node();
    let bytes = b"peer-value".to_vec();
    let checksum = digest(&bytes);
    let mut corrupt = bytes.clone();
    corrupt[0] ^= 1;
    assert!(matches!(
        state.import_peer_block(
            u64::MAX,
            b"bad".to_vec(),
            &Payload::new(corrupt),
            &checksum,
            bytes.len() as u64
        ),
        Err(WorkerError::Conflict)
    ));
    assert!(read_bytes(&state, b"bad").is_none());
    assert!(matches!(
        state.import_peer_block(
            u64::MAX,
            b"short".to_vec(),
            &Payload::new(bytes.clone()),
            &checksum,
            1
        ),
        Err(WorkerError::Conflict)
    ));
    assert!(read_bytes(&state, b"short").is_none());
    state
        .import_peer_block(
            u64::MAX,
            b"ok".to_vec(),
            &Payload::new(bytes.clone()),
            &checksum,
            bytes.len() as u64,
        )
        .unwrap();
    assert_eq!(read_bytes(&state, b"ok"), Some(bytes));
}

#[test]
fn retiring_peer_import_allows_cutoff_scope_without_republishing() {
    let mut state = node();
    let session = open(&mut state, false);
    let old_scope = state.begin_read_scope(session).unwrap();
    let (reply, waiters) =
        state.register_prepare_retirement(&b"retire-peer-import".to_vec(), &block(), 31);
    assert_eq!(reply, RetirementReply::Waiting);
    assert!(waiters.is_empty());

    let bytes = b"peer-value".to_vec();
    let checksum = digest(&bytes);
    assert!(!state
        .import_peer_block(
            old_scope,
            b"block".to_vec(),
            &Payload::new(bytes.clone()),
            &checksum,
            bytes.len() as u64,
        )
        .unwrap());
    assert_eq!(read_bytes(&state, b"block"), Some(bytes.clone()));
    let new_scope = state.begin_read_scope(session).unwrap();
    assert!(matches!(
        state.import_peer_block(
            new_scope,
            b"block".to_vec(),
            &Payload::new(bytes),
            &checksum,
            b"peer-value".len() as u64,
        ),
        Err(WorkerError::Conflict)
    ));

    assert_eq!(state.finish_read_scope(old_scope), vec![31]);
}

#[test]
fn cancelled_begin_read_scope_reply_does_not_leak_scope() {
    let mut state = node();
    let session = open(&mut state, false);
    let (begun, waiters) = state.begin_read_scope_reply(session, true);
    assert!(begun.is_ok());
    assert!(waiters.is_empty());
    assert_eq!(state.active_read_scopes.len(), 0);
    let (begun, _) = state.begin_data_core_read_scope_reply(true);
    assert!(begun.is_ok());
    assert_eq!(state.active_read_scopes.len(), 0);
    let (begun, _) = state.begin_read_scope_reply(session, false);
    assert!(state.active_read_scopes.contains(&begun.unwrap()));
    assert!(matches!(
        state.begin_read_scope_reply(session + 1, false).0,
        Err(WorkerError::UnknownSession)
    ));
    state.next_read_scope = u64::MAX;
    assert!(matches!(
        state.begin_data_core_read_scope_reply(false).0,
        Err(WorkerError::InvalidArgument("read scope id exhausted"))
    ));
}

#[test]
fn peer_import_plan_capacity_is_not_coupled_to_mailbox_capacity() {
    let mut state = node_with(1024, false);
    let scope = 1;
    state.next_read_scope = 2;
    state.active_read_scopes.insert(scope);
    for index in 0..512_u64 {
        let spec = PeerPullSpec::single_source(
            "http://127.0.0.1:25299".to_string(),
            format!("block-{index}").into_bytes(),
            digest(&[index as u8]),
            1,
        );
        assert!(matches!(
            state.begin_peer_import(scope, &spec, index, &nobody()),
            ImportStart::Started(_)
        ));
    }
    assert_eq!(state.imports.flights.len(), 512);
    assert_eq!(state.imports.bytes, 512);
}

#[test]
fn peer_import_completion_is_published_per_block_before_plan_ends() {
    let mut state = node();
    let scope = 1;
    state.next_read_scope = 2;
    state.active_read_scopes.insert(scope);
    let first = source(b"first-block", b"first");
    let second = source(b"second-block", b"second");
    let ImportStart::Started(first_attempt) = state.begin_peer_import(scope, &first, 71, &nobody())
    else {
        panic!("first flight")
    };
    assert!(matches!(
        state.begin_peer_import(scope, &second, 72, &nobody()),
        ImportStart::Started(_)
    ));
    let (installed, told, _) = state.install_peer_block(
        first.block_id.clone(),
        &Payload::new(b"first".to_vec()),
        &digest(b"first"),
        5,
        scope,
        Some(first_attempt),
    );
    installed.expect("install first block");
    assert_eq!(told, vec![71]);
    assert!(state.imports.flights.contains(&second.block_id));
}

#[test]
fn reads_of_a_missing_block_share_one_import() {
    let mut state = node();
    let session = open(&mut state, false);
    let scope = state.begin_read_scope(session).unwrap();
    let spec = source(b"b", b"bytes");
    let mut gone = nobody();
    gone.insert(3);
    assert_eq!(
        state.begin_peer_import(scope, &spec, 1, &gone),
        ImportStart::Started(1)
    );
    assert_eq!(
        state.begin_peer_import(scope, &spec, 2, &gone),
        ImportStart::Joined
    );
    assert_eq!(
        state.begin_peer_import(scope, &spec, 3, &gone),
        ImportStart::Unwanted
    );
    // An import that was overtaken changes nothing.
    let (told, _) = state.complete_peer_import(&spec.block_id, 9, None);
    assert!(told.is_empty());
    state.note_import_task(&vec![spec.block_id.clone()], 55);
    let (told, _) = state.fail_peer_import_task(55);
    assert_eq!(told, vec![1, 2]);
    // The reads that were under way see the failure.
    assert!(matches!(
        state.begin_peer_import(scope, &spec, 4, &gone),
        ImportStart::Refused(_)
    ));
    let later = state.begin_read_scope(session).unwrap();
    assert!(matches!(
        state.begin_peer_import(later, &spec, 4, &gone),
        ImportStart::Started(_)
    ));
    let stranger = state.install_peer_block(
        b"b".to_vec(),
        &Payload::new(b"bytes".to_vec()),
        &digest(b"bytes"),
        5,
        later,
        Some(77),
    );
    assert!(stranger.0.is_err());
    assert!(read_bytes(&state, b"b").is_none());
}

#[test]
fn several_imports_end_together() {
    let mut state = node();
    let session = open(&mut state, false);
    let scope = state.begin_read_scope(session).unwrap();
    let (starts, work) = state.ensure_peer_blocks(
        scope,
        vec![(source(b"a", b"1"), 1), (source(b"b", b"22"), 2), (source(b"a", b"1"), 3)],
        &nobody(),
    );
    assert_eq!(
        starts,
        vec![
            ImportStart::Started(1),
            ImportStart::Started(2),
            ImportStart::Joined
        ]
    );
    assert_eq!(work.len(), 2);
    assert_eq!(state.imports.bytes, 3);
    let (told, _) = state.complete_peer_imports(&vec![
        PeerImportCompletion {
            block_id: b"a".to_vec(),
            attempt: 1,
            failure: None,
        },
        PeerImportCompletion {
            block_id: b"b".to_vec(),
            attempt: 2,
            failure: Some(PeerImportFailure::terminal(WorkerError::NotFound)),
        },
    ]);
    assert_eq!(told, vec![vec![1, 3], vec![2]]);
    assert_eq!(state.imports.bytes, 0);
}

#[test]
fn retirement_prepare_is_event_driven_and_blocks_new_cached_borrows() {
    let mut state = node();
    let session = open(&mut state, false);
    commit_inline(&mut state, b"block", b"abc");
    let resolved = one_block_value(1, 3, b"block");
    let old_scope = state.begin_read_scope(session).unwrap();
    let (reply, waiters) = state.register_prepare_retirement(&b"retire-1".to_vec(), &block(), 1);
    assert_eq!(reply, RetirementReply::Waiting);
    assert!(waiters.is_empty());
    let new_scope = state.begin_read_scope(session).unwrap();
    assert!(matches!(
        state.get_resolved_for_request(session, new_scope, 1, &resolved, None, false, 0, NOW),
        Err(WorkerError::NotFound)
    ));

    assert_eq!(state.finish_read_scope(old_scope), vec![1]);
    assert!(state.arena.block_allocation_id(&b"block".to_vec()).is_some());
}

#[test]
fn retirement_final_completes_from_release_event_without_polling() {
    let mut state = node();
    let session = open(&mut state, false);
    commit_inline(&mut state, b"block", b"abc");
    let resolved = one_block_value(1, 3, b"block");
    let outcome = state
        .get_resolved_for_request(session, u64::MAX, 9, &resolved, None, false, 0, NOW)
        .unwrap();
    let transfer_id = download_id(outcome);
    let (reply, waiters) = state.register_prepare_retirement(&b"retire-1".to_vec(), &block(), 1);
    assert_eq!(reply, RetirementReply::Waiting);
    assert_eq!(waiters, vec![1]);
    let (reply, waiters) = state.register_final_retirement(&b"retire-1".to_vec(), &block(), 2);
    assert_eq!(reply, RetirementReply::Waiting);
    assert!(waiters.is_empty());

    let (bytes, waiters) = state.download(transfer_id, NOW);
    assert_eq!(bytes.unwrap(), b"abc".to_vec());
    assert_eq!(waiters, vec![2]);
    assert!(state.arena.block_allocation_id(&b"block".to_vec()).is_none());

    let (reply, _) = state.register_final_retirement(&b"retire-1".to_vec(), &block(), 3);
    assert_eq!(reply, RetirementReply::Done);
}

#[test]
fn prepare_retirement_waits_only_cutoff_read_scopes() {
    let mut state = node();
    let session = open(&mut state, false);
    let old_scope = state.begin_read_scope(session).unwrap();
    let cutoff = state.prepare_block_retirement(&block());
    let later_scope = state.begin_read_scope(session).unwrap();
    assert!(!state.read_scopes_drained(cutoff));
    state.finish_read_scope(old_scope);
    assert!(state.read_scopes_drained(cutoff));
    assert!(state.active_read_scopes.contains(&later_scope));
}

#[test]
fn final_retirement_waits_for_read_view_release() {
    let mut state = node_with(4096, true);
    let session = open(&mut state, true);
    commit_inline(&mut state, b"block", b"abc");
    let resolved = one_block_value(1, 3, b"block");
    assert!(matches!(
        get(&mut state, session, &resolved),
        GetOutcome::Ready(_)
    ));
    assert!(!state.try_finalize_block_retirement(&block()));
    state
        .heartbeat_inner(session, Some(1), &Vec::new(), None, false, false, NOW)
        .0
        .unwrap();
    assert!(state.try_finalize_block_retirement(&block()));
    assert!(state.arena.block_allocation_id(&b"block".to_vec()).is_none());
}

#[test]
fn disconnected_read_view_keeps_retirement_blocked_until_release() {
    let mut state = node_with(4096, true);
    let session = open(&mut state, true);
    commit_inline(&mut state, b"block", b"abc");
    let resolved = one_block_value(1, 3, b"block");
    assert!(matches!(
        get(&mut state, session, &resolved),
        GetOutcome::Ready(_)
    ));
    let id = b"retire-disconnected".to_vec();
    assert_eq!(
        state.register_prepare_retirement(&id, &block(), 1).1,
        vec![1]
    );
    state.close_session(session, NOW);
    assert!(state.sessions.sessions.contains(&session));
    let (reply, waiters) = state.register_final_retirement(&id, &block(), 2);
    assert_eq!(reply, RetirementReply::Waiting);
    assert!(waiters.is_empty());
    assert!(state.arena.block_allocation_id(&b"block".to_vec()).is_some());

    let (answer, waiters) =
        state.heartbeat_inner(session, Some(1), &Vec::new(), None, false, false, NOW);
    answer.unwrap();
    assert_eq!(waiters, vec![2]);
    assert!(state.arena.block_allocation_id(&b"block".to_vec()).is_none());
}

#[test]
fn final_retirement_waits_for_tcp_download_ticket() {
    let mut state = node();
    let session = open(&mut state, false);
    commit_inline(&mut state, b"block", b"abc");
    let resolved = one_block_value(1, 3, b"block");
    let transfer_id = download_id(get(&mut state, session, &resolved));
    assert!(!state.try_finalize_block_retirement(&block()));
    assert_eq!(state.download(transfer_id, NOW).0.unwrap(), b"abc".to_vec());
    assert!(state.try_finalize_block_retirement(&block()));
}

#[test]
fn a_retirement_keeps_to_its_blocks() {
    let mut state = node();
    let id = b"retire".to_vec();
    assert!(matches!(
        state.register_prepare_retirement(&Vec::new(), &block(), 1).0,
        RetirementReply::Failed(WorkerError::InvalidArgument(_))
    ));
    assert!(matches!(
        state.register_final_retirement(&id, &Vec::new(), 1).0,
        RetirementReply::Failed(WorkerError::InvalidArgument(_))
    ));
    let session = open(&mut state, false);
    let scope = state.begin_read_scope(session).unwrap();
    state.register_prepare_retirement(&id, &block(), 1);
    assert!(matches!(
        state
            .register_prepare_retirement(&id, &vec![b"other".to_vec()], 2)
            .0,
        RetirementReply::Failed(WorkerError::Conflict)
    ));
    for waiter in 3..18 {
        assert_eq!(
            state.register_prepare_retirement(&id, &block(), waiter).0,
            RetirementReply::Waiting
        );
    }
    assert!(matches!(
        state.register_prepare_retirement(&id, &block(), 18).0,
        RetirementReply::Failed(WorkerError::ResourceExhausted)
    ));
    assert_eq!(state.finish_read_scope(scope).len(), 16);
    assert_eq!(
        state.register_prepare_retirement(&id, &block(), 19).0,
        RetirementReply::Done
    );
}

#[test]
fn prepared_replica_timeout_transitions_to_aborted_without_publication() {
    let mut state = node();
    let plan_id = b"repair-plan".to_vec();
    let bytes = b"replica-bytes".to_vec();
    let block_id = digest(&bytes);
    state
        .replicas
        .prepare_replica(
            plan_id.clone(),
            block_id.clone(),
            bytes.clone(),
            digest(&bytes),
            bytes.len() as u64,
            NOW,
        )
        .expect("prepare");
    assert!(matches!(
        state.replicas.transfers.get(&plan_id),
        Some(ReplicaTransferState::Prepared(_))
    ));
    state.tick(NOW + 31 * SECOND);
    let status = state.replicas.replica_status(&plan_id).expect("status");
    assert_eq!(status.status, "aborted");
    assert!(matches!(
        state.arena.open_read(&block_id, None),
        Err(ArenaError::UnknownBlock)
    ));
}

#[test]
fn rejected_repair_report_discards_its_active_unpublished_block() {
    let mut state = node();
    let plan_id = b"late-repair-plan".to_vec();
    let bytes = b"late-replica-bytes".to_vec();
    let block_id = digest(&bytes);
    state
        .replicas
        .prepare_replica(
            plan_id.clone(),
            block_id.clone(),
            bytes.clone(),
            digest(&bytes),
            bytes.len() as u64,
            NOW,
        )
        .expect("prepare");
    state
        .replicas
        .activate_replica(&mut state.arena, &plan_id)
        .expect("activate");
    assert!(state.arena.open_read(&block_id, None).is_ok());
    state
        .replicas
        .discard_replica_attempt(&mut state.arena, &plan_id)
        .expect("discard unpublished attempt");
    assert!(matches!(
        state.arena.open_read(&block_id, None),
        Err(ArenaError::UnknownBlock)
    ));
    assert!(!state.replicas.transfers.contains(&plan_id));
}

#[test]
fn a_transfer_that_has_ended_stays_ended() {
    let mut state = node();
    let plan_id = b"plan".to_vec();
    let offer = |state: &mut NodeState, length: u64| {
        state.replicas.prepare_replica(
            b"plan".to_vec(),
            b"block".to_vec(),
            b"bytes".to_vec(),
            digest(b"bytes"),
            length,
            NOW,
        )
    };
    assert!(matches!(offer(&mut state, 4), Err(WorkerError::Conflict)));
    assert!(matches!(
        state.replicas.replica_status(&plan_id),
        Err(WorkerError::NotFound)
    ));
    assert_eq!(offer(&mut state, 5).unwrap().status, "prepared");
    assert_eq!(
        state.replicas.abort_replica(&plan_id).unwrap().status,
        "aborted"
    );
    assert!(matches!(
        state.replicas.activate_replica(&mut state.arena, &plan_id),
        Err(WorkerError::Conflict)
    ));
    assert!(read_bytes(&state, b"block").is_none());
}

#[test]
fn a_prepared_replica_is_read_once_it_is_active() {
    let mut state = node();
    let plan_id = b"plan".to_vec();
    assert!(matches!(
        state.replicas.activate_replica(&mut state.arena, &plan_id),
        Err(WorkerError::NotFound)
    ));
    state
        .replicas
        .prepare_replica(
            plan_id.clone(),
            b"block".to_vec(),
            b"bytes".to_vec(),
            Vec::new(),
            5,
            NOW,
        )
        .unwrap();
    state.tick(NOW + 29 * SECOND);
    assert!(read_bytes(&state, b"block").is_none());
    let active = state
        .replicas
        .activate_replica(&mut state.arena, &plan_id)
        .unwrap();
    assert_eq!(active.status, "active");
    assert_eq!(read_bytes(&state, b"block"), Some(b"bytes".to_vec()));
    let again = state
        .replicas
        .activate_replica(&mut state.arena, &plan_id)
        .unwrap();
    assert_eq!(again, active);
    assert!(matches!(
        state.replicas.abort_replica(&plan_id),
        Err(WorkerError::Conflict)
    ));
    assert_eq!(read_bytes(&state, b"block"), Some(b"bytes".to_vec()));
}

#[test]
fn a_block_is_served_as_it_came() {
    let mut state = node();
    let bytes = b"peer-value".to_vec();
    assert!(state
        .import_peer_block(
            u64::MAX,
            b"block".to_vec(),
            &Payload::new(bytes.clone()),
            &digest(&bytes),
            10,
        )
        .unwrap());
    let served = state
        .pull_block(&"node-b".to_string(), b"block".to_vec(), None)
        .unwrap();
    assert_eq!(served.payload.to_vec(), bytes);
    assert_eq!(served.checksum, digest(&bytes));
    assert_eq!(served.serving_node_id, "node-a");
    let part = state
        .pull_block(&"node-b".to_string(), b"block".to_vec(), Some((5, 3)))
        .unwrap();
    assert_eq!(part.payload.to_vec(), b"val".to_vec());
    assert_eq!(part.length, 10);
    assert!(state
        .pull_block(&String::new(), b"block".to_vec(), None)
        .is_err());
    assert!(matches!(
        state.pull_block(&"node-b".to_string(), b"none".to_vec(), None),
        Err(WorkerError::NotFound)
    ));
    let answer = state.probe(&"node-b".to_string(), vec![1, 2]).unwrap();
    assert_eq!(answer.serving_node_id, "node-a");
    assert_eq!(answer.nonce, vec![1, 2]);
    assert!(matches!(
        state.probe(&String::new(), vec![1]),
        Err(WorkerError::InvalidArgument("source node id is empty"))
    ));
    assert!(matches!(
        state.probe(&"node-b".to_string(), Vec::new()),
        Err(WorkerError::InvalidArgument("probe nonce is empty"))
    ));
}
