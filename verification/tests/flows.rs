use dms_node::cached_read::{CachedReadOutcome, DataCoreCachedReadOutcome};
use dms_node::data_core_read::{DataCoreMaterializeOutcome, DataCoreReadIntoResult};
use dms_node::error::{DmsError, ErrorCode, ErrorKind, WorkerError};
use dms_node::node_read::ReadTicket;
use dms_node::peer_import::{PeerImportFailure, PeerPullSpec};
use dms_node::protocol::{ResolveObjectResponse, VersionKind, VersionLayout};
use dms_node::read_flow::{
    after_scope, Attempt, DataCoreFlow, DataCoreReadAttempt, FlowPhase, ReadFlow,
};

fn answer(version: u64) -> ResolveObjectResponse {
    ResolveObjectResponse {
        layout: Some(VersionLayout {
            version,
            logical_length: 0,
            extents: Vec::new(),
            digest: Vec::new(),
            kind: VersionKind::Value,
        }),
        block_replicas: Vec::new(),
        current_lease: None,
    }
}

fn ticket(version: u64) -> ReadTicket {
    ReadTicket {
        read_request_id: 1,
        version,
        logical_length: 0,
        inline_value: Some(Vec::new()),
        segments: Vec::new(),
    }
}

fn missing() -> Vec<PeerPullSpec> {
    vec![PeerPullSpec::single_source(
        "http://127.0.0.1:25299".to_string(),
        b"block".to_vec(),
        Vec::new(),
        1,
    )]
}

fn lost() -> PeerImportFailure {
    PeerImportFailure {
        error: WorkerError::NotFound,
        location_failure: true,
    }
}

#[test]
fn a_cached_value_needs_nobody_else() {
    let mut flow: ReadFlow<ReadTicket> = ReadFlow::new(true, None, true);
    assert_eq!(flow.phase, FlowPhase::LookUp);
    flow.looked_up(Ok((Some(1), CachedReadOutcome::Ready(ticket(5)))));
    assert_eq!(flow.phase, FlowPhase::Over);
    assert_eq!(flow.outcome.unwrap().unwrap().version, 5);
}

#[test]
fn a_value_that_lacks_blocks_is_read_again_once_they_are_here() {
    let mut flow: ReadFlow<ReadTicket> = ReadFlow::new(true, None, true);
    flow.looked_up(Ok((Some(1), CachedReadOutcome::Miss)));
    assert_eq!(
        flow.phase,
        FlowPhase::Resolve {
            exact_version: None,
            refill: Some(1)
        }
    );
    flow.resolved(Ok(answer(3)));
    assert!(matches!(flow.phase, FlowPhase::Read { .. }));
    flow.read(Ok(Attempt::NeedsRemoteBlocks(missing())));
    assert!(matches!(flow.phase, FlowPhase::Import { .. }));
    assert_eq!(flow.specs.len(), 1);
    flow.imported(Ok(()));
    assert!(matches!(flow.phase, FlowPhase::Read { .. }));
    flow.read(Ok(Attempt::Ready(ticket(3))));
    assert_eq!(flow.outcome.unwrap().unwrap().version, 3);
}

#[test]
fn a_read_that_still_lacks_blocks_after_pulling_fails() {
    let mut flow: ReadFlow<ReadTicket> = ReadFlow::new(true, Some(3), false);
    flow.resolved(Ok(answer(3)));
    flow.read(Ok(Attempt::NeedsRemoteBlocks(missing())));
    flow.imported(Ok(()));
    flow.read(Ok(Attempt::NeedsRemoteBlocks(missing())));
    flow.imported(Ok(()));
    assert_eq!(flow.phase, FlowPhase::Over);
    assert!(flow.outcome.unwrap().is_err());
}

#[test]
fn a_stale_location_is_refreshed_in_the_version_that_was_promised() {
    let mut flow: ReadFlow<ReadTicket> = ReadFlow::new(true, None, true);
    flow.looked_up(Ok((
        Some(1),
        CachedReadOutcome::NeedsRemoteBlocks {
            resolved: answer(8),
            specs: missing(),
        },
    )));
    assert_eq!(flow.phase, FlowPhase::ImportCached { version: 8 });
    flow.imported(Err(lost()));
    assert!(matches!(
        flow.phase,
        FlowPhase::Resolve {
            exact_version: Some(8),
            ..
        }
    ));
}

#[test]
fn a_read_without_a_metadata_service_fails() {
    let flow: ReadFlow<ReadTicket> = ReadFlow::new(false, None, true);
    assert_eq!(flow.phase, FlowPhase::Over);
    assert!(matches!(
        flow.outcome,
        Some(Err(WorkerError::MetadataUnavailable))
    ));
    let mut flow: ReadFlow<ReadTicket> = ReadFlow::new(true, None, false);
    flow.resolved(Err(DmsError::new(
        ErrorCode::Other(3),
        ErrorKind::Unavailable,
        "away",
    )));
    assert!(matches!(flow.outcome, Some(Err(WorkerError::Stable(_)))));
}

fn filled(version: u64) -> DataCoreReadIntoResult {
    DataCoreReadIntoResult {
        version,
        logical_length: 2,
        bytes: vec![1, 2],
        bytes_read: 2,
    }
}

#[test]
fn a_read_into_a_buffer_keeps_the_buffer() {
    let mut flow = DataCoreFlow::new(true, None, vec![7; 2]);
    assert_eq!(flow.phase, FlowPhase::LookUp);
    assert_eq!(flow.take_output(), vec![7; 2]);
    flow.looked_up(Ok((
        Some(4),
        DataCoreCachedReadOutcome::Miss {
            output: vec![7; 2],
        },
    )));
    flow.resolved(Ok(answer(6)));
    assert_eq!(flow.take_output(), vec![7; 2]);
    flow.read(Ok(DataCoreMaterializeOutcome::Ready(filled(6))));
    let Some(Ok(DataCoreReadAttempt::Ready(result))) = flow.outcome else {
        panic!("the read is over")
    };
    assert_eq!(result.bytes, vec![1, 2]);
}

#[test]
fn a_value_that_was_resolved_before_is_read_at_once() {
    let mut flow = DataCoreFlow::pre_resolved(answer(6), vec![0; 1]);
    assert!(matches!(flow.phase, FlowPhase::Read { .. }));
    flow.read(Ok(DataCoreMaterializeOutcome::BufferTooSmall {
        version: 6,
        required: 2,
    }));
    assert!(matches!(
        flow.outcome,
        Some(Ok(DataCoreReadAttempt::BufferTooSmall {
            version: 6,
            required: 2
        }))
    ));
    let mut flow = DataCoreFlow::pre_resolved(answer(6), vec![0; 1]);
    flow.read(Ok(DataCoreMaterializeOutcome::NotFound));
    assert!(matches!(
        flow.outcome,
        Some(Ok(DataCoreReadAttempt::NotFound))
    ));
}

#[test]
fn an_error_of_the_read_comes_before_one_of_its_end() {
    assert_eq!(after_scope(Ok(7), Ok(())), Ok(7));
    assert_eq!(
        after_scope::<u64>(Err(WorkerError::NotFound), Err(WorkerError::WorkerUnavailable)),
        Err(WorkerError::NotFound)
    );
    assert_eq!(
        after_scope(Ok(7), Err(WorkerError::WorkerUnavailable)),
        Err(WorkerError::WorkerUnavailable)
    );
}

#[test]
fn only_a_lookup_that_missed_lets_a_read_fill_the_cache() {
    let mut exact: ReadFlow<ReadTicket> = ReadFlow::new(true, Some(3), true);
    exact.resolved(Ok(answer(3)));
    assert_eq!(
        exact.phase,
        FlowPhase::Read {
            pass: 0,
            refill: None
        }
    );
    let mut missed: ReadFlow<ReadTicket> = ReadFlow::new(true, None, true);
    missed.looked_up(Ok((Some(9), CachedReadOutcome::Miss)));
    missed.resolved(Ok(answer(3)));
    assert_eq!(
        missed.phase,
        FlowPhase::Read {
            pass: 0,
            refill: Some(9)
        }
    );
}
