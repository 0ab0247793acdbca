use dms_node::digest::digest;
use dms_node::error::{DmsError, ErrorCode, ErrorKind, WorkerError};
use dms_node::node_import::PeerBlockResult;
use dms_node::payload::Payload;
use dms_node::peer_import::{
    stream_source, PeerImportFailure, PeerImportWork, PeerPullSource, PeerPullSpec,
};
use dms_node::peer_pull::{
    accept_segment, after_segment_failure, buffer_for, connect_failure, first_source,
    is_pulled_at_once, is_retryable_peer_status, map_peer_pull_status, must_evict_channel, next_source, pull_request,
    PeerCode, PeerSegmentRequest, PeerStatus, SegmentRetry, SegmentWindow,
    PEER_CHANNEL_CACHE_LIMIT, PEER_PULL_SEGMENT_BYTES,
};
use dms_node::pull_plan::{
    note_imported, remaining_work, PlanPhase, PlanPull, PullChunk, PENDING_INSTALLS_MAX,
};
use dms_node::replica_transfer::ReplicaPrepareSpec;
use dms_node::table::Table;

fn status(code: PeerCode) -> PeerStatus {
    PeerStatus {
        code,
        text: "text".to_string(),
    }
}

fn spec(block_id: &[u8], bytes: &[u8]) -> PeerPullSpec {
    PeerPullSpec::single_source(
        "http://127.0.0.1:25299".to_string(),
        block_id.to_vec(),
        digest(bytes),
        bytes.len() as u64,
    )
}

fn piece(block_id: &[u8], payload: &[u8], length: u64, node: &str) -> PeerBlockResult {
    PeerBlockResult {
        serving_node_id: node.to_string(),
        block_id: block_id.to_vec(),
        payload: Payload::new(payload.to_vec()),
        checksum: Vec::new(),
        length,
    }
}

#[test]
fn statuses_of_other_nodes_are_understood() {
    for code in [
        PeerCode::Unavailable,
        PeerCode::Unknown,
        PeerCode::DeadlineExceeded,
    ] {
        assert!(is_retryable_peer_status(&status(code)));
    }
    assert!(!is_retryable_peer_status(&status(PeerCode::NotFound)));
    assert!(matches!(
        map_peer_pull_status(&status(PeerCode::NotFound)),
        WorkerError::NotFound
    ));
    assert!(matches!(
        map_peer_pull_status(&status(PeerCode::InvalidArgument)),
        WorkerError::InvalidArgument("invalid peer request")
    ));
    for code in [PeerCode::FailedPrecondition, PeerCode::Aborted] {
        assert!(matches!(
            map_peer_pull_status(&status(code)),
            WorkerError::Conflict
        ));
    }
    let WorkerError::Stable(error) = map_peer_pull_status(&status(PeerCode::Internal)) else {
        panic!("the transfer failed")
    };
    assert_eq!(error.code, ErrorCode::NodeTransferUnavailable);
    assert_eq!(error.message, "peer PullBlock failed: text");
    let WorkerError::Stable(error) = connect_failure(&"refused".to_string()) else {
        panic!("the connection failed")
    };
    assert_eq!(error.message, "peer connect failed: refused");
    assert!(must_evict_channel(PEER_CHANNEL_CACHE_LIMIT));
    assert!(!must_evict_channel(PEER_CHANNEL_CACHE_LIMIT - 1));
}

#[test]
fn a_broken_connection_is_replaced_once() {
    assert!(matches!(
        after_segment_failure(&status(PeerCode::Unavailable), true),
        SegmentRetry::Reconnect
    ));
    assert!(matches!(
        after_segment_failure(&status(PeerCode::Unavailable), false),
        SegmentRetry::Fail(_)
    ));
    assert!(matches!(
        after_segment_failure(&status(PeerCode::NotFound), true),
        SegmentRetry::Fail(WorkerError::NotFound)
    ));
}

#[test]
fn a_request_asks_for_the_whole_block_or_for_a_piece() {
    let wanted = spec(b"block", b"bytes");
    let whole = pull_request(&"node-a".to_string(), &wanted, PeerSegmentRequest::whole_block());
    assert_eq!(whole.offset, None);
    assert_eq!(whole.length, None);
    assert_eq!(whole.expected_checksum, digest(b"bytes"));
    let part = pull_request(&"node-a".to_string(), &wanted, PeerSegmentRequest::segment(2, 3));
    assert_eq!(part.offset, Some(2));
    assert_eq!(part.length, Some(3));
    assert_eq!(part.expected_length, 5);
    assert!(part.expected_checksum.is_empty());
}

#[test]
fn an_answer_must_be_about_the_block() {
    let wanted = spec(b"block", b"bytes");
    let whole = PeerSegmentRequest::whole_block();
    let mut good = piece(b"block", b"bytes", 5, "b");
    good.checksum = digest(b"bytes");
    assert!(accept_segment(&wanted, whole, good).is_ok());
    assert!(matches!(
        accept_segment(&wanted, whole, piece(b"block", b"bytes", 5, "b")),
        Err(WorkerError::Conflict)
    ));
    assert!(accept_segment(&wanted, whole, piece(b"other", b"bytes", 5, "b")).is_err());
    let part = PeerSegmentRequest::segment(1, 2);
    assert!(accept_segment(&wanted, part, piece(b"block", b"yt", 5, "b")).is_ok());
    assert!(accept_segment(&wanted, part, piece(b"block", b"y", 5, "b")).is_err());
    let mut corrupt = piece(b"block", b"yt", 5, "b");
    corrupt.checksum = digest(b"no");
    assert!(accept_segment(&wanted, part, corrupt).is_err());
}

#[test]
fn sources_are_tried_in_turn() {
    let mut wanted = spec(b"block", b"bytes");
    wanted.sources.push(PeerPullSource {
        node_id: 4,
        node_epoch: 1,
        endpoint: "http://127.0.0.1:25300".to_string(),
    });
    assert_eq!(first_source(&wanted), Ok(0));
    assert_eq!(next_source(&wanted, 0, WorkerError::NotFound), Ok(1));
    assert_eq!(
        next_source(&wanted, 1, WorkerError::NotFound),
        Err(WorkerError::NotFound)
    );
    assert_eq!(
        next_source(&wanted, 0, WorkerError::ResourceExhausted),
        Err(WorkerError::ResourceExhausted)
    );
    wanted.sources = Vec::new();
    assert!(first_source(&wanted).is_err());
}

#[test]
fn pieces_of_a_block_come_together_in_order() {
    let length = 2 * PEER_PULL_SEGMENT_BYTES + 7;
    let bytes: Vec<u8> = (0..length).map(|i| (i % 251) as u8).collect();
    let wanted = spec(b"block", &bytes);
    let buffer = buffer_for(length);
    assert!(buffer.is_some());
    let mut window = SegmentWindow::new(&wanted, buffer).unwrap();
    let first = window.next_segment().unwrap();
    let second = window.next_segment().unwrap();
    assert_eq!(first, (0, PEER_PULL_SEGMENT_BYTES));
    assert_eq!(second, (PEER_PULL_SEGMENT_BYTES, PEER_PULL_SEGMENT_BYTES));
    assert_eq!(window.next_segment(), None);
    let cut = |from: u64, size: u64| {
        piece(
            b"block",
            &bytes[from as usize..(from + size) as usize],
            length,
            "node-b",
        )
    };
    window
        .segment_arrived(second.0, cut(second.0, second.1))
        .unwrap();
    // A piece that came too early takes a place in the window.
    assert!(window.payload.is_empty());
    assert_eq!(window.next_segment(), None);
    window.segment_arrived(first.0, cut(first.0, first.1)).unwrap();
    assert!(!window.is_complete());
    let third = window.next_segment().unwrap();
    assert_eq!(third, (2 * PEER_PULL_SEGMENT_BYTES, 7));
    window.segment_arrived(third.0, cut(third.0, third.1)).unwrap();
    assert!(window.is_complete());
    let block = window.into_block();
    assert_eq!(block.payload.to_vec(), bytes);
    assert_eq!(block.checksum, digest(&bytes));
    assert_eq!(block.serving_node_id, "node-b");
}

#[test]
fn an_empty_block_needs_no_memory() {
    assert_eq!(buffer_for(0), Some(Vec::new()));
    assert_eq!(buffer_for(7), Some(Vec::new()));
    assert_eq!(buffer_for(u64::MAX), None);
}

#[test]
fn pieces_of_two_nodes_do_not_make_a_block() {
    let length = PEER_PULL_SEGMENT_BYTES + 1;
    let bytes = vec![3u8; length as usize];
    let wanted = spec(b"block", &bytes);
    let mut window = SegmentWindow::new(&wanted, buffer_for(length)).unwrap();
    let first = window.next_segment().unwrap();
    let second = window.next_segment().unwrap();
    window
        .segment_arrived(
            first.0,
            piece(b"block", &bytes[..first.1 as usize], length, "node-b"),
        )
        .unwrap();
    assert!(matches!(
        window.segment_arrived(second.0, piece(b"block", &[3], length, "node-c")),
        Err(WorkerError::Conflict)
    ));
    assert!(SegmentWindow::new(&wanted, None).is_err());
}

fn work(block_id: &[u8], bytes: &[u8], attempt: u64) -> PeerImportWork {
    PeerImportWork {
        spec: spec(block_id, bytes),
        attempt,
    }
}

fn chunk(block_id: &[u8], whole: &[u8], from: usize, to: usize) -> PullChunk {
    PullChunk {
        block_id: block_id.to_vec(),
        block_length: whole.len() as u64,
        block_offset: from as u64,
        payload: Payload::new(whole[from..to].to_vec()),
        end_of_block: to == whole.len(),
        checksum: digest(whole),
        serving_node_id: "node-b".to_string(),
    }
}

#[test]
fn a_stream_brings_its_blocks_one_by_one() {
    let mut plan = PlanPull::new(vec![work(b"a", b"first", 1), work(b"b", b"two", 2)]);
    assert!(plan.take_chunk(chunk(b"a", b"first", 0, 2)).is_none());
    let block = plan.take_chunk(chunk(b"a", b"first", 2, 5)).expect("block");
    assert_eq!(block.payload.to_vec(), b"first".to_vec());
    assert!(matches!(plan.phase, PlanPhase::Beginning));
    plan.install_begun(None);
    let block = plan.take_chunk(chunk(b"b", b"two", 0, 3)).expect("block");
    assert_eq!(block.block_id, b"b".to_vec());
    plan.install_begun(None);
    assert_eq!(plan.pending.len(), PENDING_INSTALLS_MAX);
    plan.install_finished(None);
    if matches!(plan.phase, PlanPhase::Reading) {
        plan.stream_ended();
    }
    plan.install_finished(None);
    if matches!(plan.phase, PlanPhase::Reading) {
        plan.stream_ended();
    }
    assert!(plan.succeeded());
    assert_eq!(plan.installed.len(), 2);
}

#[test]
fn a_stream_that_breaks_leaves_the_rest_to_others() {
    let mut plan = PlanPull::new(vec![work(b"a", b"first", 1), work(b"b", b"two", 2)]);
    plan.take_chunk(chunk(b"a", b"first", 0, 5)).expect("block");
    plan.install_begun(None);
    // A chunk out of place ends the stream.
    assert!(plan.take_chunk(chunk(b"b", b"two", 1, 3)).is_none());
    assert!(!plan.succeeded());
    plan.install_finished(None);
    assert!(matches!(plan.phase, PlanPhase::Over));
    assert!(!plan.succeeded());
    let left = remaining_work(&plan.work, &plan.installed);
    assert_eq!(left.len(), 1);
    assert_eq!(left[0].spec.block_id, b"b".to_vec());
}

#[test]
fn a_plan_tells_of_each_block_that_it_took_up_once() {
    let mut plan = PlanPull::new(vec![
        work(b"a", b"first", 1),
        work(b"b", b"two", 2),
        work(b"c", b"three", 3),
    ]);
    plan.take_chunk(chunk(b"a", b"first", 0, 5)).expect("block");
    plan.install_begun(None);
    plan.take_chunk(chunk(b"b", b"two", 0, 3)).expect("block");
    plan.install_begun(Some(WorkerError::ResourceExhausted));
    assert!(matches!(plan.phase, PlanPhase::Draining));
    plan.install_finished(None);
    assert!(matches!(plan.phase, PlanPhase::Over));
    let mut told: Vec<(Vec<u8>, u64)> = plan
        .installed
        .iter()
        .map(|result| (result.block_id.clone(), result.attempt))
        .collect();
    told.sort();
    assert_eq!(told, vec![(b"a".to_vec(), 1), (b"b".to_vec(), 2)]);
    assert_eq!(remaining_work(&plan.work, &plan.installed).len(), 1);
}

#[test]
fn only_blocks_that_a_read_waits_for_are_kept() {
    let mut imported: Table<Vec<u8>, Payload> = Table::new();
    let required = vec![b"a".to_vec()];
    note_imported(
        &mut imported,
        &required,
        b"a".to_vec(),
        Ok(Some(Payload::new(b"1".to_vec()))),
    )
    .unwrap();
    note_imported(
        &mut imported,
        &required,
        b"b".to_vec(),
        Ok(Some(Payload::new(b"2".to_vec()))),
    )
    .unwrap();
    assert!(imported.contains(&b"a".to_vec()));
    let failure = || {
        Err(PeerImportFailure::terminal(WorkerError::Stable(
            DmsError::new(ErrorCode::Other(1), ErrorKind::Internal, "x"),
        )))
    };
    assert!(note_imported(&mut imported, &required, b"a".to_vec(), failure()).is_err());
    assert!(note_imported(&mut imported, &required, b"b".to_vec(), failure()).is_ok());
}

fn wanted(block_id: &[u8], endpoints: &[&str]) -> PeerImportWork {
    PeerImportWork {
        spec: PeerPullSpec {
            sources: endpoints
                .iter()
                .map(|endpoint| PeerPullSource {
                    node_id: 1,
                    node_epoch: 1,
                    endpoint: endpoint.to_string(),
                })
                .collect(),
            block_id: block_id.to_vec(),
            expected_checksum: Vec::new(),
            expected_length: 1,
        },
        attempt: 1,
    }
}

#[test]
fn a_stream_needs_several_blocks_and_a_source_for_all_of_them() {
    assert!(stream_source(&Vec::new()).is_none());
    assert!(stream_source(&vec![wanted(b"a", &["x"])]).is_none());
    let both = stream_source(&vec![wanted(b"a", &["x", "y"]), wanted(b"b", &["z", "y"])]);
    assert_eq!(both.expect("both have it").endpoint, "y");
    assert!(stream_source(&vec![wanted(b"a", &["x"]), wanted(b"b", &["y"])]).is_none());
}

#[test]
fn a_block_is_pulled_at_once_up_to_the_size_of_a_piece() {
    let mut block = spec(b"block", b"bytes");
    block.expected_length = PEER_PULL_SEGMENT_BYTES;
    assert!(is_pulled_at_once(&block));
    block.expected_length = PEER_PULL_SEGMENT_BYTES + 1;
    assert!(!is_pulled_at_once(&block));
}

fn replica() -> ReplicaPrepareSpec {
    ReplicaPrepareSpec {
        plan_id: b"plan".to_vec(),
        source_node_id: "node-b".to_string(),
        source_endpoint: "http://127.0.0.1:25299".to_string(),
        block_id: b"block".to_vec(),
        expected_checksum: digest(b"bytes"),
        expected_length: 5,
    }
}

#[test]
fn a_replica_needs_a_plan_a_source_and_a_block() {
    let good = replica();
    assert_eq!(good.validate(), Ok(()));
    let pulled = good.pull_spec();
    assert_eq!(pulled.sources.len(), 1);
    assert_eq!(pulled.sources[0].endpoint, "http://127.0.0.1:25299");
    assert_eq!(pulled.block_id, b"block");
    assert_eq!(pulled.expected_checksum, digest(b"bytes"));
    assert_eq!(pulled.expected_length, 5);
    let mut without_plan = replica();
    without_plan.plan_id.clear();
    let mut without_source = replica();
    without_source.source_endpoint.clear();
    let mut without_block = replica();
    without_block.block_id.clear();
    for bad in [without_plan, without_source, without_block] {
        assert_eq!(
            bad.validate(),
            Err(WorkerError::InvalidArgument(
                "plan id, source endpoint and block id are required"
            ))
        );
    }
}

#[test]
fn a_failed_pull_blames_the_location() {
    let failure = PeerImportFailure::of_location(WorkerError::NotFound);
    assert!(failure.location_failure);
    assert_eq!(failure.error, WorkerError::NotFound);
    assert!(!PeerImportFailure::terminal(WorkerError::NotFound).location_failure);
}
