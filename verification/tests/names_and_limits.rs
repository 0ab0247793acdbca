use dms_node::arena::HostReceipt;
use dms_node::bytes::be_bytes;
use dms_node::digest::digest;
use dms_node::error::{
    can_refresh_cached_location, can_try_next_peer_source, is_definitive_metadata_rejection,
    is_not_found_result, map_arena_error, map_metadata_error, transfer_unavailable,
    worker_error_to_dms, ArenaError, DmsError, ErrorCode, ErrorKind, WorkerError,
};
use dms_node::identity::{block_identity, bytes_to_lower_hex, derive_batch_operation_id, operation_id};
use dms_node::limits::{
    validate_batch_write, validate_grpc_payload_bytes, validate_operation_id, validate_user_field,
    validate_user_key, BatchEntry, BATCH_MAX_ITEMS, BATCH_MAX_PAYLOAD_BYTES,
    GRPC_PAYLOAD_SAFE_BYTES, USER_FIELD_BYTES_MAX, USER_KEY_BYTES_MAX,
};

#[test]
fn batch_operation_ids_keep_client_identity_and_derive_sequence() {
    let operation_id: Vec<u8> = (0u8..24u8).collect();

    let first = derive_batch_operation_id(&operation_id, 0).expect("first id");
    let second = derive_batch_operation_id(&operation_id, 1).expect("second id");

    assert_eq!(first.len(), 24);
    assert_eq!(second.len(), 24);
    assert_eq!(&first[..16], &operation_id[..16]);
    assert_eq!(&second[..16], &operation_id[..16]);
    assert_ne!(&first[16..], &second[16..]);
}

#[test]
fn batch_operation_ids_reject_invalid_parent_identity() {
    let error = derive_batch_operation_id(&[1, 2, 3], 0).expect_err("invalid length");
    assert!(matches!(error, WorkerError::InvalidArgument(_)));
}

#[test]
fn arena_errors_keep_precise_public_codes() {
    let cases = [
        (
            ArenaError::StaleHandle,
            ErrorCode::NodeArenaStaleHandle,
            ErrorKind::Unavailable,
        ),
        (
            ArenaError::SharedMemoryUnavailable,
            ErrorCode::NodeArenaShmUnavailable,
            ErrorKind::Unavailable,
        ),
        (
            ArenaError::RegionAccessDenied,
            ErrorCode::NodeArenaAccessDenied,
            ErrorKind::PermissionDenied,
        ),
        (
            ArenaError::UnknownRegion,
            ErrorCode::NodeArenaStaleHandle,
            ErrorKind::Unavailable,
        ),
        (
            ArenaError::EmptyPayload,
            ErrorCode::NodeArenaInvalidRequest,
            ErrorKind::InvalidArgument,
        ),
        (
            ArenaError::RegionCreateFailed,
            ErrorCode::NodeArenaAllocationFailed,
            ErrorKind::ResourceExhausted,
        ),
    ];

    for (arena_error, expected_code, expected_kind) in cases {
        let public = worker_error_to_dms(map_arena_error(arena_error));
        assert_eq!(public.code, expected_code);
        assert_eq!(public.kind, expected_kind);
        assert_ne!(public.code, ErrorCode::NodeMetadataUnavailable);
        assert_ne!(public.code, ErrorCode::NodeVersionConflict);
    }
}

#[test]
fn worker_and_transfer_unavailable_use_separate_codes() {
    let worker = worker_error_to_dms(WorkerError::WorkerUnavailable);
    assert_eq!(worker.code, ErrorCode::NodeWorkerUnavailable);
    assert_eq!(worker.kind, ErrorKind::Unavailable);

    let metadata = worker_error_to_dms(WorkerError::MetadataUnavailable);
    assert_eq!(metadata.code, ErrorCode::NodeMetadataUnavailable);
    assert_eq!(metadata.kind, ErrorKind::Unavailable);

    let transfer = worker_error_to_dms(WorkerError::TransferUnavailable);
    assert_eq!(transfer.code, ErrorCode::NodeTransferUnavailable);
    assert_eq!(transfer.kind, ErrorKind::Unavailable);
}

#[test]
fn stable_meta_error_keeps_its_code_through_node_boundary() {
    let meta_error = DmsError::new(
        ErrorCode::MetaCatalogVersionConflict,
        ErrorKind::Aborted,
        "meta rejected stale object version",
    );
    let worker_error = map_metadata_error(meta_error.duplicate());
    let public_error = worker_error_to_dms(worker_error);

    assert_eq!(public_error.code, meta_error.code);
    assert_eq!(public_error.kind, meta_error.kind);
    assert_eq!(public_error.message, meta_error.message);
}

#[test]
fn only_confirmed_metadata_rejections_allow_block_retirement() {
    for code in [
        ErrorCode::MetaCatalogInvalidRequest,
        ErrorCode::MetaCatalogVersionConflict,
    ] {
        assert!(is_definitive_metadata_rejection(&DmsError::new(
            code,
            ErrorKind::InvalidArgument,
            "rejected before commit"
        )));
    }
    for code in [
        ErrorCode::MetaJournalAppendFailed,
        ErrorCode::MetaJournalUnavailable,
        ErrorCode::NodeMetadataUnavailable,
    ] {
        assert!(!is_definitive_metadata_rejection(&DmsError::new(
            code,
            ErrorKind::Unavailable,
            "unknown commit outcome"
        )));
    }
}

fn receipt(length: u64) -> HostReceipt {
    HostReceipt {
        length,
        digest: vec![0; 32],
        release_token: Vec::new(),
    }
}

#[test]
fn node_boundary_rejects_oversized_key_and_batch_before_write() {
    assert!(matches!(
        validate_user_key(&vec![b'k'; USER_KEY_BYTES_MAX + 1]),
        Err(WorkerError::InvalidArgument(_))
    ));

    let entries = (0..=BATCH_MAX_ITEMS)
        .map(|index| BatchEntry {
            key: format!("k-{index}").into_bytes(),
            staging_id: index as u64 + 1,
            receipt: receipt(1),
        })
        .collect::<Vec<_>>();

    assert!(matches!(
        validate_batch_write(&entries),
        Err(WorkerError::ResourceExhausted)
    ));
}

#[test]
fn keys_fields_and_payloads_have_limits() {
    assert!(validate_user_key(b"").is_err());
    assert!(validate_user_key(&vec![b'k'; USER_KEY_BYTES_MAX]).is_ok());
    assert!(validate_user_field(b"").is_err());
    assert!(validate_user_field(&vec![b'f'; USER_FIELD_BYTES_MAX]).is_ok());
    assert!(validate_user_field(&vec![b'f'; USER_FIELD_BYTES_MAX + 1]).is_err());
    assert!(validate_grpc_payload_bytes(GRPC_PAYLOAD_SAFE_BYTES).is_ok());
    assert!(matches!(
        validate_grpc_payload_bytes(GRPC_PAYLOAD_SAFE_BYTES + 1),
        Err(WorkerError::ResourceExhausted)
    ));
    assert!(validate_operation_id(&[1; 24]).is_ok());
    assert!(validate_operation_id(&[1; 23]).is_err());
    assert!(matches!(
        validate_batch_write(&Vec::new()),
        Err(WorkerError::InvalidArgument("MSet entries are empty"))
    ));
    let halves = vec![
        BatchEntry {
            key: b"a".to_vec(),
            staging_id: 1,
            receipt: receipt(BATCH_MAX_PAYLOAD_BYTES),
        },
        BatchEntry {
            key: b"b".to_vec(),
            staging_id: 2,
            receipt: receipt(1),
        },
    ];
    assert!(matches!(
        validate_batch_write(&halves),
        Err(WorkerError::ResourceExhausted)
    ));
}

#[test]
fn operations_and_blocks_have_exact_names() {
    let name = operation_id(0xab, 0x0102_0304_0506_0708);
    assert_eq!(&name[..16], &[0xab; 16]);
    assert_eq!(&name[16..], &[1, 2, 3, 4, 5, 6, 7, 8]);
    assert_eq!(be_bytes(0x0102), vec![0, 0, 0, 0, 0, 0, 1, 2]);

    let mut input = b"node-a".to_vec();
    input.extend_from_slice(&[7; 24]);
    assert_eq!(block_identity("node-a", &[7; 24]), digest(&input));
    assert_ne!(
        block_identity("node-a", &[7; 24]),
        block_identity("node-b", &[7; 24])
    );

    let mut derived = vec![9u8; 24];
    derived.extend_from_slice(&be_bytes(3));
    assert_eq!(
        &derive_batch_operation_id(&[9; 24], 3).unwrap()[16..],
        &digest(&derived)[..8]
    );
    assert_eq!(bytes_to_lower_hex(&[0x00, 0x9f, 0xa0, 0xff]), "009fa0ff");
    assert_eq!(
        bytes_to_lower_hex(&digest(b"abc")),
        "ba7816bf8f01cfea414140de5dae2223b00361a396177a9cb410ff61f20015ad"
    );
}

#[test]
fn errors_are_told_apart_by_what_may_follow() {
    assert!(is_not_found_result(&WorkerError::NotFound));
    assert!(!is_not_found_result(&WorkerError::NoLiveReplica));
    assert!(can_try_next_peer_source(&WorkerError::NotFound));
    assert!(can_try_next_peer_source(&WorkerError::Conflict));
    assert!(can_try_next_peer_source(&transfer_unavailable(
        "gone".to_string()
    )));
    assert!(!can_try_next_peer_source(&WorkerError::ResourceExhausted));
    assert!(!can_refresh_cached_location(&WorkerError::ResourceExhausted));
    assert!(can_refresh_cached_location(&WorkerError::NotFound));
    let lost = DmsError::new(ErrorCode::Other(7), ErrorKind::DataLoss, "lost");
    assert!(can_try_next_peer_source(&WorkerError::Stable(lost)));
}

#[test]
fn version_conflicts_are_seen_wherever_they_were_found() {
    assert!(WorkerError::Conflict.is_version_conflict());
    assert!(WorkerError::Stable(DmsError::new(
        ErrorCode::MetaCatalogVersionConflict,
        ErrorKind::Aborted,
        "version moved on",
    ))
    .is_version_conflict());
    assert!(!WorkerError::NotFound.is_version_conflict());
    assert!(!WorkerError::Stable(DmsError::new(
        ErrorCode::NodeObjectNotFound,
        ErrorKind::NotFound,
        "gone",
    ))
    .is_version_conflict());
}
