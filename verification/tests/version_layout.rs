use dms_node::digest::digest as content_digest;
use dms_node::error::WorkerError;
use dms_node::version_layout::{
    data_extent, digest, hole_extent, is_hole, overlay, overlay_file_write, punch_hole_file,
    truncate_file, validate, ByteRange, ExtentRecord, EXTENT_KIND_UNSPECIFIED,
};

fn extent(start: u64, length: u64, block: &[u8], block_offset: u64) -> ExtentRecord {
    data_extent(start, length, block.to_vec(), block_offset, block.to_vec())
}

fn patch_extent(start: u64, length: u64, block: &[u8], digest: &[u8]) -> ExtentRecord {
    data_extent(start, length, block.to_vec(), 0, digest.to_vec())
}

#[test]
fn one_byte_patch_reuses_the_base_block_on_both_sides() {
    let next =
        overlay(&[extent(0, 6, b"base", 0)], 6, 2, 1, b"patch", b"p").expect("valid overlay");
    assert_eq!(
        next,
        vec![
            extent(0, 2, b"base", 0),
            patch_extent(2, 1, b"patch", b"p"),
            extent(3, 3, b"base", 3),
        ]
    );
}

#[test]
fn rejects_gap_and_out_of_range_patch() {
    assert!(validate(3, &[extent(1, 2, b"base", 0)]).is_err());
    assert!(overlay(&[extent(0, 3, b"base", 0)], 3, 3, 1, b"patch", b"p").is_err());
}

#[test]
fn file_append_reuses_base_and_adds_one_extent() {
    let next = overlay_file_write(&[extent(0, 3, b"base", 0)], 3, 3, 2, b"tail", b"t")
        .expect("append at EOF");
    assert_eq!(
        next,
        vec![extent(0, 3, b"base", 0), patch_extent(3, 2, b"tail", b"t")]
    );
}

#[test]
fn file_write_can_replace_suffix_and_extend() {
    let next = overlay_file_write(&[extent(0, 6, b"base", 0)], 6, 4, 4, b"tail", b"t")
        .expect("replace suffix and extend");
    assert_eq!(
        next,
        vec![extent(0, 4, b"base", 0), patch_extent(4, 4, b"tail", b"t")]
    );
}

#[test]
fn truncate_file_clips_suffix_without_copying_blocks() {
    let next = truncate_file(&[extent(0, 8, b"base", 2)], 8, 5).expect("truncate suffix");
    assert_eq!(next, vec![extent(0, 5, b"base", 2)]);
}

#[test]
fn truncate_file_keeps_only_referenced_extents() {
    let next = truncate_file(&[extent(0, 4, b"left", 0), extent(4, 4, b"right", 0)], 8, 4)
        .expect("truncate to extent boundary");
    assert_eq!(next, vec![extent(0, 4, b"left", 0)]);
}

#[test]
fn truncate_file_allows_empty_layout() {
    let next = truncate_file(&[extent(0, 8, b"base", 0)], 8, 0).expect("truncate empty");
    assert!(next.is_empty());
    validate(0, &next).expect("empty file layout is valid");
}

#[test]
fn file_write_beyond_eof_uses_sparse_hole_without_zero_block() {
    let next = overlay_file_write(&[extent(0, 3, b"base", 0)], 3, 5, 2, b"data", b"d")
        .expect("sparse pwrite");
    assert_eq!(
        next,
        vec![
            extent(0, 3, b"base", 0),
            hole_extent(3, 2),
            patch_extent(5, 2, b"data", b"d"),
        ]
    );
}

#[test]
fn truncate_grow_extends_with_sparse_hole() {
    let next = truncate_file(&[extent(0, 3, b"base", 0)], 3, 6).expect("sparse grow");
    assert_eq!(next, vec![extent(0, 3, b"base", 0), hole_extent(3, 3)]);
}

#[test]
fn patch_can_replace_the_middle_of_a_sparse_hole() {
    let next =
        overlay_file_write(&[hole_extent(0, 8)], 8, 3, 2, b"data", b"d").expect("write inside hole");
    assert_eq!(
        next,
        vec![
            hole_extent(0, 3),
            patch_extent(3, 2, b"data", b"d"),
            hole_extent(5, 3),
        ]
    );
}

#[test]
fn punch_hole_reuses_data_block_prefix_and_suffix() {
    let next = punch_hole_file(&[extent(0, 8, b"base", 2)], 8, 3, 2).expect("punch middle range");
    assert_eq!(
        next,
        vec![
            extent(0, 3, b"base", 2),
            hole_extent(3, 2),
            extent(5, 3, b"base", 7),
        ]
    );
}

#[test]
fn punch_hole_clips_at_eof_and_keeps_file_size() {
    let next = punch_hole_file(&[extent(0, 8, b"base", 0)], 8, 6, 8).expect("punch through eof");
    assert_eq!(next, vec![extent(0, 6, b"base", 0), hole_extent(6, 2)]);
    validate(8, &next).expect("file size remains unchanged");
}

#[test]
fn punch_hole_past_eof_is_a_layout_noop() {
    let base = vec![extent(0, 8, b"base", 0)];
    assert_eq!(
        punch_hole_file(&base, 8, 12, 4).expect("range past eof"),
        base
    );
}

#[test]
fn explicit_hole_is_not_encoded_as_empty_data() {
    let hole = hole_extent(0, 4);
    assert!(is_hole(&hole));
    validate(4, std::slice::from_ref(&hole)).expect("explicit hole is valid");

    let legacy_data = ExtentRecord {
        logical: Some(ByteRange {
            offset: 0,
            length: 4,
        }),
        block_id: b"old".to_vec(),
        block_offset: 0,
        digest: b"old".to_vec(),
        kind: EXTENT_KIND_UNSPECIFIED,
    };
    assert!(!is_hole(&legacy_data));
    validate(4, &[legacy_data]).expect("legacy data extent remains compatible");

    let invalid = ExtentRecord {
        block_id: b"bad".to_vec(),
        digest: b"bad".to_vec(),
        ..hole
    };
    assert!(validate(4, &[invalid]).is_err());
}

#[test]
fn a_layout_without_ranges_or_with_the_wrong_length_is_invalid() {
    let mut nameless = extent(0, 3, b"base", 0);
    nameless.logical = None;
    assert!(matches!(
        validate(3, &[nameless]),
        Err(WorkerError::InvalidArgument(_))
    ));
    assert!(validate(4, &[extent(0, 3, b"base", 0)]).is_err());
    assert!(validate(3, &[extent(0, 0, b"base", 0), extent(0, 3, b"base", 0)]).is_err());
    assert!(validate(0, &[]).is_ok());
}

#[test]
fn adjacent_holes_are_joined() {
    let next = punch_hole_file(&[hole_extent(0, 2), extent(2, 4, b"base", 0)], 6, 2, 2)
        .expect("punch behind a hole");
    assert_eq!(next, vec![hole_extent(0, 4), extent(4, 2, b"base", 2)]);
}

#[test]
fn a_patch_that_overflows_is_refused() {
    assert!(overlay(&[extent(0, 3, b"base", 0)], 3, u64::MAX, 2, b"patch", b"p").is_err());
    assert!(overlay_file_write(&[extent(0, 3, b"base", 0)], 3, u64::MAX, 2, b"patch", b"p").is_err());
}

#[test]
fn the_layout_digest_hashes_length_and_extents() {
    let mut expected = 3u64.to_be_bytes().to_vec();
    expected.extend_from_slice(&0u64.to_be_bytes());
    expected.extend_from_slice(&3u64.to_be_bytes());
    expected.push(1);
    expected.extend_from_slice(&4u64.to_be_bytes());
    expected.extend_from_slice(b"base");
    expected.extend_from_slice(&7u64.to_be_bytes());
    expected.extend_from_slice(b"base");
    assert_eq!(
        digest(3, &[extent(0, 3, b"base", 7)]),
        content_digest(&expected)
    );
    let mut hole = 2u64.to_be_bytes().to_vec();
    hole.extend_from_slice(&0u64.to_be_bytes());
    hole.extend_from_slice(&2u64.to_be_bytes());
    hole.push(2);
    hole.extend_from_slice(&0u64.to_be_bytes());
    hole.extend_from_slice(&0u64.to_be_bytes());
    assert_eq!(digest(2, &[hole_extent(0, 2)]), content_digest(&hole));
}

#[test]
fn shortening_in_two_steps_is_shortening_at_once() {
    let base = vec![
        extent(0, 2, b"one", 0),
        hole_extent(2, 3),
        hole_extent(5, 2),
        extent(7, 4, b"two", 1),
    ];
    for between in 0..=11 {
        let middle = truncate_file(&base, 11, between).unwrap();
        for last in 0..=between {
            assert_eq!(
                truncate_file(&middle, between, last).unwrap(),
                truncate_file(&base, 11, last).unwrap()
            );
        }
    }
    assert_eq!(
        truncate_file(&base, 11, 6).unwrap(),
        vec![extent(0, 2, b"one", 0), hole_extent(2, 4)]
    );
}

#[test]
fn shortening_gives_back_what_was_there_before_lengthening() {
    let with_data = vec![hole_extent(0, 2), extent(2, 3, b"one", 1)];
    let with_hole = vec![extent(0, 3, b"one", 1), hole_extent(3, 2)];
    for base in [with_data, with_hole] {
        let grown = truncate_file(&base, 5, 9).unwrap();
        assert_ne!(grown, base);
        assert_eq!(truncate_file(&grown, 9, 5).unwrap(), base);
    }
    let empty = truncate_file(&[], 0, 4).unwrap();
    assert_eq!(empty, vec![hole_extent(0, 4)]);
    assert!(truncate_file(&empty, 4, 0).unwrap().is_empty());
}

#[test]
fn punching_a_hole_again_changes_nothing() {
    let base = vec![
        hole_extent(0, 2),
        extent(2, 4, b"one", 0),
        hole_extent(6, 1),
        hole_extent(7, 1),
        extent(8, 3, b"two", 1),
    ];
    for offset in 0..12 {
        for length in 1..12 {
            let once = punch_hole_file(&base, 11, offset, length).unwrap();
            assert_eq!(punch_hole_file(&once, 11, offset, length).unwrap(), once);
        }
    }
    assert_eq!(
        punch_hole_file(&base, 11, 3, 4).unwrap(),
        vec![
            hole_extent(0, 2),
            extent(2, 1, b"one", 0),
            hole_extent(3, 5),
            extent(8, 3, b"two", 1),
        ]
    );
}
