use dms_node::command::{NodeCommand, NodeMailboxCommand};
use dms_node::digest::digest;
use dms_node::dispatch::{Applied, Asker, NodeAnswer};
use dms_node::error::WorkerError;
use dms_node::namespace::NamespaceAction;
use dms_node::node::NodeState;
use dms_node::node_session::NodeTaskConfig;
use dms_node::node_space::{ConfigApplied, ConfigChange, LogLevel};
use dms_node::payload::Payload;
use dms_node::peer_import::{ImportStart, PeerPullSpec, NODE_MAILBOX_CAPACITY};
use dms_node::protocol::{ResolveObjectResponse, VersionKind, VersionLayout};
use dms_node::table::KeySet;
use dms_node::version_layout::data_extent;

const SECOND: u64 = 1_000_000_000;
const NOW: u64 = 1_000 * SECOND;

fn node() -> NodeState {
    NodeState::new(
        "node-a".to_string(),
        true,
        &NodeTaskConfig {
            arena_capacity_bytes: 4096,
            staging_ttl: 30 * SECOND,
            client_cache_lease_ttl: SECOND,
            node_current_cache_bytes: 1 << 20,
            node_current_cache_ttl: 5 * SECOND,
            shared_memory: false,
        },
        7,
        NOW,
    )
}

fn here(waiter: u64) -> Asker {
    Asker {
        gone: false,
        waiter,
    }
}

fn gone(waiter: u64) -> Asker {
    Asker { gone: true, waiter }
}

fn ask(state: &mut NodeState, command: NodeCommand, asker: Asker) -> Applied {
    assert!(state.numbers_left(&command));
    state.apply(command, asker, &KeySet::new(), 0, &mut 1, NOW)
}

fn open(state: &mut NodeState) -> u64 {
    let applied = ask(
        state,
        NodeCommand::OpenSession {
            shared_memory: false,
            supports_write_lease_release: false,
        },
        here(1),
    );
    match applied.answer {
        NodeAnswer::Number(Ok(session)) => session,
        _ => panic!("a session is opened"),
    }
}

fn is_well(applied: &Applied) -> bool {
    matches!(applied.answer, NodeAnswer::Done(Ok(())))
}

#[test]
fn mailbox_correlates_each_result_with_its_request() {
    let mut state = node();
    let first = open(&mut state);
    let second = open(&mut state);
    assert_ne!(first, 0);
    assert_ne!(second, 0);
    assert_eq!(second, first + 1);
    let beat = ask(
        &mut state,
        NodeCommand::Heartbeat {
            session_id: second,
            released_view_through: None,
            released_write_allocations: Vec::new(),
            finished_read_request_through: None,
            renew_cache: false,
            stream_closed: false,
        },
        here(2),
    );
    assert!(matches!(beat.answer, NodeAnswer::Number(Ok(0))));
    assert!(is_well(&ask(
        &mut state,
        NodeCommand::ValidateSession { session_id: first },
        here(3)
    )));
    assert!(matches!(
        ask(
            &mut state,
            NodeCommand::ValidateSession {
                session_id: second + 1
            },
            here(3)
        )
        .answer,
        NodeAnswer::Done(Err(WorkerError::UnknownSession))
    ));
}

#[test]
fn online_config_updates_staging_ttl_through_node_owner() {
    let mut state = node();
    let applied = ask(
        &mut state,
        NodeCommand::ApplyConfigChange {
            change: ConfigChange::StagingTtl(5_000_000),
        },
        here(1),
    );
    let NodeAnswer::Configured(Ok(applied)) = applied.answer else {
        panic!("the setting is taken")
    };
    assert_eq!(applied.version, 2);
    assert_eq!(state.arena.staging_ttl, 5_000_000);
}

#[test]
fn a_value_that_was_written_to_shared_memory_is_set() {
    let mut state = node();
    state.arena.shared = true;
    let opened = ask(
        &mut state,
        NodeCommand::OpenSession {
            shared_memory: true,
            supports_write_lease_release: true,
        },
        here(1),
    );
    let NodeAnswer::Number(Ok(session)) = opened.answer else {
        panic!("a session is opened")
    };
    let staged = ask(
        &mut state,
        NodeCommand::AllocateStaging {
            session_id: session,
            length: 5,
            release_token: b"token".to_vec(),
        },
        here(2),
    );
    let NodeAnswer::Staged(Ok(allocation)) = staged.answer else {
        panic!("room is made")
    };
    let fill = NodeCommand::FillMapped {
        transfer_id: allocation.transfer_id,
        bytes: b"bytes".to_vec(),
    };
    assert_eq!(fill.metric(), NodeMailboxCommand::Upload);
    let NodeAnswer::Receipt(Ok(receipt)) = ask(&mut state, fill, here(3)).answer else {
        panic!("the bytes are taken")
    };
    let set = ask(
        &mut state,
        NodeCommand::SetValue {
            session_id: session,
            key: b"key".to_vec(),
            staging_id: allocation.staging_id,
            receipt,
            operation_id: vec![8; 24],
            condition: "any".to_string(),
        },
        here(4),
    );
    let NodeAnswer::Value(Ok(commit)) = set.answer else {
        panic!("the value is proposed")
    };
    let (ticket, _) = state.arena.open_read(&commit.block_id, None).unwrap();
    assert_eq!(state.arena.read_ticket(ticket).unwrap(), b"bytes".to_vec());
    assert!(state.arena.block_has_unreturned_write(&commit.block_id));
}

#[test]
fn each_changed_setting_makes_a_new_version() {
    let mut state = node();
    let ttl = state.arena.staging_ttl;
    let applied = state
        .apply_config_change(ConfigChange::LogLevel(LogLevel::Debug))
        .unwrap();
    assert_eq!(
        applied,
        ConfigApplied {
            version: 2,
            log_level: Some(LogLevel::Debug)
        }
    );
    assert_eq!(state.arena.staging_ttl, ttl);
    assert_eq!(
        state.apply_config_change(ConfigChange::StagingTtl(7)),
        Ok(ConfigApplied {
            version: 3,
            log_level: None
        })
    );
    state.config_version = u64::MAX;
    assert_eq!(
        state.apply_config_change(ConfigChange::StagingTtl(9)),
        Err(WorkerError::ResourceExhausted)
    );
    assert_eq!(state.arena.staging_ttl, 7);
}

#[test]
fn unclaimed_successful_begin_read_scope_reply_does_not_leak_scope() {
    let mut state = node();
    let session = open(&mut state);
    let begun = ask(
        &mut state,
        NodeCommand::BeginReadScope {
            session_id: session,
        },
        gone(2),
    );
    assert!(matches!(begun.answer, NodeAnswer::Number(Ok(_))));
    let prepared = ask(
        &mut state,
        NodeCommand::PrepareBlockRetirement {
            retirement_id: b"unclaimed-scope".to_vec(),
            block_ids: vec![b"block".to_vec()],
        },
        here(3),
    );
    assert!(matches!(prepared.answer, NodeAnswer::Later));
    assert_eq!(prepared.finished, vec![3]);
}

#[test]
fn dropped_read_scope_guard_finishes_scope() {
    let mut state = node();
    let session = open(&mut state);
    let begun = ask(
        &mut state,
        NodeCommand::BeginReadScope {
            session_id: session,
        },
        here(2),
    );
    let NodeAnswer::Number(Ok(scope_id)) = begun.answer else {
        panic!("a read begins")
    };
    let prepared = ask(
        &mut state,
        NodeCommand::PrepareBlockRetirement {
            retirement_id: b"drop-scope".to_vec(),
            block_ids: vec![b"block".to_vec()],
        },
        here(3),
    );
    assert!(prepared.finished.is_empty());
    let finished = ask(
        &mut state,
        NodeCommand::FinishReadScope { scope_id },
        here(4),
    );
    assert!(is_well(&finished));
    assert_eq!(finished.finished, vec![3]);
}

fn resolved(block_id: &[u8]) -> ResolveObjectResponse {
    ResolveObjectResponse {
        layout: Some(VersionLayout {
            version: 2,
            logical_length: 3,
            extents: vec![data_extent(0, 3, block_id.to_vec(), 0, block_id.to_vec())],
            digest: b"layout".to_vec(),
            kind: VersionKind::Value,
        }),
        block_replicas: Vec::new(),
        current_lease: None,
    }
}

#[test]
fn a_read_whose_asker_has_gone_is_over() {
    let mut state = node();
    let session = open(&mut state);
    let begun = ask(
        &mut state,
        NodeCommand::BeginReadScope {
            session_id: session,
        },
        here(2),
    );
    let NodeAnswer::Number(Ok(scope_id)) = begun.answer else {
        panic!("a read begins")
    };
    let read = |asker: Asker, state: &mut NodeState| {
        ask(
            state,
            NodeCommand::MaterializeResolved {
                session_id: session,
                read_scope_id: scope_id,
                resolved: resolved(b"block"),
            },
            asker,
        )
    };
    assert!(matches!(
        read(here(3), &mut state).answer,
        NodeAnswer::Whole(Err(_))
    ));
    assert!(state.active_read_scopes.contains(&scope_id));
    assert!(matches!(
        read(gone(3), &mut state).answer,
        NodeAnswer::Nobody
    ));
    assert!(!state.active_read_scopes.contains(&scope_id));
}

#[test]
fn an_invalidation_waits_for_the_clients_that_may_have_cached_the_key() {
    let mut state = node();
    let session = open(&mut state);
    let quiet = ask(
        &mut state,
        NodeCommand::InvalidateCurrent {
            key: b"key".to_vec(),
            minimum_version: 2,
        },
        here(5),
    );
    assert!(is_well(&quiet));
    ask(
        &mut state,
        NodeCommand::AttachSession {
            session_id: session,
        },
        here(6),
    );
    let leased = ask(
        &mut state,
        NodeCommand::MetadataLease {
            valid_until: Some(NOW + SECOND),
            watch_connected: Some(true),
        },
        here(6),
    );
    assert!(matches!(
        leased.answer,
        NodeAnswer::Names(ref actions) if actions == &vec![NamespaceAction::ForgetAll]
    ));
    let granted = ask(
        &mut state,
        NodeCommand::Heartbeat {
            session_id: session,
            released_view_through: None,
            released_write_allocations: Vec::new(),
            finished_read_request_through: None,
            renew_cache: true,
            stream_closed: false,
        },
        here(6),
    );
    assert!(matches!(granted.answer, NodeAnswer::Number(Ok(1000))));
    // Looking a key up notes the interest in it.
    ask(
        &mut state,
        NodeCommand::GetCached {
            session_id: session,
            read_scope_id: u64::MAX,
            read_request_id: 0,
            key: b"key".to_vec(),
            node_epoch: 0,
            range: None,
            clamp_range: false,
            max_inline_bytes: 0,
        },
        here(7),
    );
    let invalidated = ask(
        &mut state,
        NodeCommand::InvalidateCurrent {
            key: b"key".to_vec(),
            minimum_version: 3,
        },
        here(8),
    );
    assert!(matches!(invalidated.answer, NodeAnswer::Later));
    let sent = invalidated.broadcast.expect("an event");
    assert_eq!(sent.deliveries.len(), 1);
    assert_eq!(sent.deliveries[0].event.minimum_version, 3);
    let second = ask(
        &mut state,
        NodeCommand::WaitInvalidation {
            barrier_id: sent.barrier_id.unwrap(),
        },
        here(9),
    );
    assert!(matches!(
        second.answer,
        NodeAnswer::Done(Err(WorkerError::Conflict))
    ));
    let acknowledged = ask(
        &mut state,
        NodeCommand::Acknowledge {
            session_id: session,
            sequence: sent.deliveries[0].event.event_sequence,
        },
        here(10),
    );
    assert_eq!(acknowledged.finished, vec![8]);
}

#[test]
fn too_many_writes_are_refused_before_anything_is_stored() {
    let mut state = node();
    let session = open(&mut state);
    let write = || NodeCommand::SetInline {
        session_id: session,
        key: b"key".to_vec(),
        bytes: b"value".to_vec(),
        operation_id: vec![1; 24],
        condition: "any".to_string(),
    };
    let refused = state.apply(
        write(),
        here(1),
        &KeySet::new(),
        NODE_MAILBOX_CAPACITY,
        &mut 1,
        NOW,
    );
    assert!(matches!(
        refused.answer,
        NodeAnswer::Value(Err(WorkerError::ResourceExhausted))
    ));
    assert_eq!(state.arena.used, 0);
    let taken = state.apply(write(), here(1), &KeySet::new(), 0, &mut 1, NOW);
    assert!(matches!(taken.answer, NodeAnswer::Value(Ok(_))));
    assert_eq!(state.arena.used, 5);
    let again = state.apply(write(), here(1), &KeySet::new(), 0, &mut 1, NOW);
    assert!(matches!(
        again.answer,
        NodeAnswer::Value(Err(WorkerError::WorkerUnavailable))
    ));
}

#[test]
fn imports_are_asked_for_and_installed() {
    let mut state = node();
    let session = open(&mut state);
    let begun = ask(
        &mut state,
        NodeCommand::BeginReadScope {
            session_id: session,
        },
        here(2),
    );
    let NodeAnswer::Number(Ok(scope_id)) = begun.answer else {
        panic!("a read begins")
    };
    let asked = ask(
        &mut state,
        NodeCommand::EnsurePeerBlocks {
            read_scope_id: scope_id,
            requests: vec![(
                PeerPullSpec::single_source(
                    "http://127.0.0.1:25299".to_string(),
                    b"block".to_vec(),
                    digest(b"abc"),
                    3,
                ),
                21,
            )],
        },
        here(3),
    );
    let NodeAnswer::Imports { starts, work } = asked.answer else {
        panic!("imports are asked for")
    };
    assert_eq!(starts, vec![ImportStart::Started(1)]);
    assert_eq!(work[0].attempt, 1);
    let installed = ask(
        &mut state,
        NodeCommand::ImportPeerBlock {
            block_id: b"block".to_vec(),
            bytes: Payload::new(b"abc".to_vec()),
            checksum: digest(b"abc"),
            length: 3,
            read_scope_id: scope_id,
            import_attempt: Some(1),
        },
        here(4),
    );
    assert!(matches!(installed.answer, NodeAnswer::Installed(Ok(true))));
    assert_eq!(installed.imported, vec![21]);
    let read = ask(
        &mut state,
        NodeCommand::PeerPullBlock {
            source_node_id: "node-b".to_string(),
            block_id: b"block".to_vec(),
            range: None,
        },
        here(5),
    );
    let NodeAnswer::Block(Ok(block)) = read.answer else {
        panic!("the block is here")
    };
    assert_eq!(block.payload.to_vec(), b"abc".to_vec());
}

#[test]
fn references_follow_handles() {
    let mut state = node();
    let opened = ask(
        &mut state,
        NodeCommand::FilesystemOpenHandleWithReference { inode: 40 },
        here(1),
    );
    let NodeAnswer::Reference(Some(generation)) = opened.answer else {
        panic!("the first reference begins a generation")
    };
    let closed = ask(
        &mut state,
        NodeCommand::FilesystemCloseHandleWithReference { inode: Some(40) },
        here(1),
    );
    assert!(matches!(
        closed.answer,
        NodeAnswer::Closed(Some(Some((released, false)))) if released == generation
    ));
    let unknown = ask(
        &mut state,
        NodeCommand::FilesystemCloseHandleWithReference { inode: None },
        here(1),
    );
    assert!(matches!(unknown.answer, NodeAnswer::Closed(None)));
    assert!(matches!(
        ask(
            &mut state,
            NodeCommand::FilesystemHasLiveInodeReference { inode: 40 },
            here(1)
        )
        .answer,
        NodeAnswer::Live(false)
    ));
    assert!(matches!(
        ask(
            &mut state,
            NodeCommand::FilesystemGetBinding { inode: 40 },
            here(1)
        )
        .answer,
        NodeAnswer::Remembered
    ));
    assert!(matches!(
        ask(&mut state, NodeCommand::ResourceSummary, here(1)).answer,
        NodeAnswer::Memory {
            capacity: 4096,
            used: 0
        }
    ));
}

#[test]
fn requests_are_counted_under_the_work_they_belong_to() {
    let cases = [
        (
            NodeCommand::MetadataLease {
                valid_until: None,
                watch_connected: None,
            },
            NodeMailboxCommand::Heartbeat,
        ),
        (NodeCommand::ResourceSummary, NodeMailboxCommand::Heartbeat),
        (
            NodeCommand::DataCoreReserveFileSpace {
                reservation_id: Vec::new(),
                length: 0,
            },
            NodeMailboxCommand::SetRange,
        ),
        (
            NodeCommand::BeginDataCoreReadScope,
            NodeMailboxCommand::GetCached,
        ),
        (
            NodeCommand::InvalidateFilesystemBinding {
                inode: 1,
                through_generation: 1,
                minimum_inode_revision: 1,
            },
            NodeMailboxCommand::InvalidateCurrent,
        ),
        (
            NodeCommand::PlanFilesystemPeerPrefetch {
                read_scope_id: 1,
                resolved: Vec::new(),
            },
            NodeMailboxCommand::MaterializeResolved,
        ),
        (
            NodeCommand::EnsurePeerBlocks {
                read_scope_id: 1,
                requests: Vec::new(),
            },
            NodeMailboxCommand::ImportPeerBlock,
        ),
        (
            NodeCommand::WaitInvalidation { barrier_id: 1 },
            NodeMailboxCommand::WaitInvalidation,
        ),
    ];
    for (command, name) in cases {
        assert_eq!(command.metric(), name);
    }
}
