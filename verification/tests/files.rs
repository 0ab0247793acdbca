use dms_node::error::WorkerError;
use dms_node::namespace::{
    check_resolved_entry, plan_local_mutation, plan_revocation, DirectoryVersion, EntrySlot,
    InodeVersion, NamespaceAction, PrefetchedEntry, RemovedDentry, ResolvedEntry,
};
use dms_node::node::NodeState;
use dms_node::node_session::NodeTaskConfig;

const MILLI: u64 = 1_000_000;
const SECOND: u64 = 1_000 * MILLI;
const NOW: u64 = 1_000 * SECOND;

fn node() -> NodeState {
    NodeState::new(
        "node-a".to_string(),
        false,
        &NodeTaskConfig {
            arena_capacity_bytes: 4096,
            staging_ttl: 30 * SECOND,
            client_cache_lease_ttl: SECOND,
            node_current_cache_bytes: 1 << 20,
            node_current_cache_ttl: 5 * SECOND,
            shared_memory: false,
        },
        7,
        NOW,
    )
}

#[test]
fn filesystem_inode_reference_lifecycle_updates_state_and_metrics() {
    let mut state = node();
    let mut generations = 1;
    let inode = 42;
    let references = &mut state.references;
    let generation = references
        .acquire_filesystem_inode_reference_local(inode, &mut generations, NOW)
        .expect("first local holder establishes a generation");
    assert_eq!(
        references.acquire_filesystem_inode_reference_local(inode, &mut generations, NOW),
        None
    );
    assert_eq!(
        references
            .references
            .get(&inode)
            .map(|reference| (reference.count, reference.generation)),
        Some((2, generation))
    );
    assert_eq!(
        references.release_filesystem_inode_reference_local(inode, 1),
        None
    );
    assert_eq!(
        references.release_filesystem_inode_reference_local(inode, 1),
        Some((generation, false))
    );
    assert!(!references.references.contains(&inode));

    let orphan_generation = references
        .acquire_filesystem_inode_reference_local(inode, &mut generations, NOW)
        .expect("new local holder establishes a new generation");
    references.mark_filesystem_inode_orphan(inode);
    assert_eq!(
        references.release_filesystem_inode_reference_local(inode, 1),
        Some((orphan_generation, true))
    );
    assert_eq!(references.references.len(), 0);
}

#[test]
fn filesystem_prefetch_reference_is_promoted_locally_but_not_renewed_while_unused() {
    let mut state = node();
    let mut generations = 1;
    let inode = 77;
    let references = &mut state.references;
    references.install_filesystem_inode_reference_reservation(inode, 19, 1_000, NOW);
    assert!(references.filesystem_inode_reference_snapshot().is_empty());
    assert_eq!(
        references.acquire_filesystem_inode_reference_local(inode, &mut generations, NOW),
        None
    );
    assert_eq!(
        references.filesystem_inode_reference_snapshot(),
        vec![(inode, 19)]
    );
    assert_eq!(
        references.release_filesystem_inode_reference_local(inode, 1),
        Some((19, false))
    );

    references.install_filesystem_inode_reference_reservation(inode, 20, 1_000, NOW);
    let replacement = references
        .acquire_filesystem_inode_reference_local(inode, &mut generations, NOW + 1_001 * MILLI)
        .expect("expired reservation must reacquire protection");
    assert_ne!(replacement, 20);
}

#[test]
fn references_live_while_their_lease_does() {
    let mut state = node();
    let mut generations = 1;
    let references = &mut state.references;
    references.install_filesystem_inode_reference(9, 5, 1_000, NOW);
    references.acquire_filesystem_inode_reference_local(9, &mut generations, NOW);
    assert!(references.has_live_filesystem_inode_reference(9, NOW));
    assert!(!references.has_live_filesystem_inode_reference(9, NOW + 2 * SECOND));
    references.renew_filesystem_inode_reference_leases(&vec![(9, 5)], 5_000, NOW);
    assert!(references.has_live_filesystem_inode_reference(9, NOW + 2 * SECOND));
    references.renew_filesystem_inode_reference_leases(&vec![(9, 6)], 60_000, NOW);
    assert!(!references.has_live_filesystem_inode_reference(9, NOW + 30 * SECOND));
}

#[test]
fn the_root_is_never_counted() {
    let mut state = node();
    let mut generations = 1;
    assert_eq!(
        state.references.acquire_filesystem_inode_reference_local(1, &mut generations, NOW),
        None
    );
    assert_eq!(state.references.references.len(), 0);
}

#[test]
fn old_grants_are_taken_back_before_bindings_come() {
    let actions = plan_local_mutation(
        &vec![
            DirectoryVersion {
                inode: 2,
                revision: 10,
                grant_generation: 4,
            },
            DirectoryVersion {
                inode: 3,
                revision: 11,
                grant_generation: 5,
            },
        ],
        &vec![InodeVersion {
            inode: 9,
            grant_generation: 6,
        }],
        &vec![
            RemovedDentry {
                parent: 3,
                name: b"x".to_vec(),
            },
            RemovedDentry {
                parent: 2,
                name: b"y".to_vec(),
            },
            RemovedDentry {
                parent: 3,
                name: b"z".to_vec(),
            },
        ],
        1,
    );
    assert_eq!(
        actions,
        vec![
            NamespaceAction::RevokeBinding {
                inode: 2,
                generation: 4
            },
            NamespaceAction::ApplyMutation {
                directory: 2,
                revision: 10,
                generation: 4,
                removed: vec![b"y".to_vec()],
            },
            NamespaceAction::RevokeBinding {
                inode: 3,
                generation: 5
            },
            NamespaceAction::ApplyMutation {
                directory: 3,
                revision: 11,
                generation: 5,
                removed: vec![b"x".to_vec(), b"z".to_vec()],
            },
            NamespaceAction::RevokeBinding {
                inode: 9,
                generation: 6
            },
            NamespaceAction::InsertBinding(EntrySlot::Refreshed(0)),
        ]
    );
    assert_eq!(
        plan_revocation(4, 7, 8),
        vec![
            NamespaceAction::RevokeBinding {
                inode: 4,
                generation: 7
            },
            NamespaceAction::RevokeDirectory {
                directory: 4,
                generation: 7,
                minimum_revision: 8
            },
        ]
    );
}

fn entry(inode: u64, generation: u64, lease_millis: u64) -> ResolvedEntry {
    ResolvedEntry {
        parent: 2,
        name: b"a.txt".to_vec(),
        directory_revision: 12,
        grant_generation: 3,
        inode,
        reference_generation: generation,
        reference_lease_millis: lease_millis,
        prefetched: vec![PrefetchedEntry {
            inode: 50,
            reference_generation: 21,
            reference_lease_millis: 1_000,
        }],
        refreshed: 1,
    }
}

#[test]
fn a_resolved_entry_brings_its_references() {
    let mut generations = 1;
    let mut state = node();
    let actions = state.install_resolved_entry(&entry(40, 20, 1_000), true, NOW);
    assert_eq!(
        actions,
        vec![
            NamespaceAction::RevokeBinding {
                inode: 2,
                generation: 3
            },
            NamespaceAction::ApplyMutation {
                directory: 2,
                revision: 12,
                generation: 3,
                removed: vec![b"a.txt".to_vec()],
            },
            NamespaceAction::InsertDentry(EntrySlot::Main),
            NamespaceAction::InsertBinding(EntrySlot::Main),
            NamespaceAction::InsertDentry(EntrySlot::Prefetched(0)),
            NamespaceAction::InsertBinding(EntrySlot::Prefetched(0)),
            NamespaceAction::InsertBinding(EntrySlot::Refreshed(0)),
        ]
    );
    assert_eq!(
        state.references.filesystem_inode_reference_snapshot(),
        vec![(40, 20)]
    );
    assert_eq!(
        state.references.acquire_filesystem_inode_reference_local(50, &mut generations, NOW),
        None
    );
    assert_eq!(
        state
            .install_resolved_entry(&entry(41, 22, 1_000), false, NOW)
            .len(),
        5
    );
}

#[test]
fn an_entry_without_its_reference_is_refused() {
    assert!(check_resolved_entry(&entry(40, 20, 1_000)).is_ok());
    assert!(matches!(
        check_resolved_entry(&entry(40, 0, 1_000)),
        Err(WorkerError::MetadataUnavailable)
    ));
    assert!(check_resolved_entry(&entry(40, 20, 0)).is_err());
    assert!(check_resolved_entry(&entry(1, 0, 0)).is_ok());
}

#[test]
fn file_space_is_taken_from_all_reservations_or_from_none() {
    let mut state = node();
    state.reserve_file_space(b"r1".to_vec(), 100).unwrap();
    state.reserve_file_space(b"r2".to_vec(), 50).unwrap();
    assert!(matches!(
        state.reserve_file_space(b"r1".to_vec(), 1),
        Err(WorkerError::Conflict)
    ));
    assert!(matches!(
        state.reserve_file_space(b"r3".to_vec(), 5000),
        Err(WorkerError::ResourceExhausted)
    ));
    assert_eq!(state.arena.used, 150);
    assert!(matches!(
        state.consume_file_space(&vec![(b"r1".to_vec(), 60), (b"r2".to_vec(), 51)]),
        Err(WorkerError::ArenaInvalidRequest)
    ));
    assert_eq!(state.arena.used, 150);
    let taken = state
        .consume_file_space(&vec![(b"r1".to_vec(), 60), (b"r2".to_vec(), 50)])
        .unwrap();
    assert_eq!(state.arena.used, 40);
    state.restore_file_space(&taken).unwrap();
    assert_eq!(state.arena.used, 150);
    assert!(matches!(
        state.release_file_space(&vec![(b"r1".to_vec(), 100), (b"rx".to_vec(), 1)]),
        Err(WorkerError::NotFound)
    ));
    assert_eq!(state.arena.used, 50);
    state.release_file_space(&vec![(b"r2".to_vec(), 50)]).unwrap();
    assert_eq!(state.arena.used, 0);
}

#[test]
fn nodes_of_a_process_never_share_a_generation() {
    let mut generations = 1;
    let mut first = node();
    let mut second = node();
    let one = first
        .references
        .acquire_filesystem_inode_reference_local(42, &mut generations, NOW)
        .unwrap();
    assert_eq!(
        first
            .references
            .acquire_filesystem_inode_reference_local(42, &mut generations, NOW),
        None
    );
    let other = second
        .references
        .acquire_filesystem_inode_reference_local(42, &mut generations, NOW)
        .unwrap();
    assert_eq!((one, other), (1, 2));
    generations = u64::MAX;
    let mut begin = |inode: u64| {
        first
            .references
            .acquire_filesystem_inode_reference_local(inode, &mut generations, NOW)
            .unwrap()
    };
    assert_eq!(begin(43), u64::MAX);
    assert_eq!(begin(44), 1);
}
