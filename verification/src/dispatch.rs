//! What each request does to the node. The owner takes one request after the other and performs
//! what is left to be done outside: it sends events, asks the metadata service and other nodes, and
//! keeps what is remembered of files and directories.
#[allow(unused_imports)]
use crate::arena::ArenaView;
use crate::arena::{FileSpaceConsumption, HostReceipt, HostRegionGrant};
use crate::batch_write::{admit_write, BatchCommit};
#[allow(unused_imports)]
use crate::bytes::views;
use crate::cached_read::{CachedReadOutcome, DataCoreCachedReadOutcome};
#[allow(unused_imports)]
use crate::cached_read::{CachedIntoView, CachedView};
use crate::command::NodeCommand;
#[allow(unused_imports)]
use crate::current_cache::millis_to_nanos;
use crate::data_core_read::DataCoreMaterializeOutcome;
#[allow(unused_imports)]
use crate::data_core_read::view_of;
#[allow(unused_imports)]
use crate::error::arena_error_means;
use crate::error::WorkerError;
use crate::layout_write::LayoutCommit;
#[allow(unused_imports)]
use crate::layout_write::{layout_proposal_made, preparation_made};
#[allow(unused_imports)]
use crate::limits::checked;
use crate::namespace::{plan_local_mutation, plan_revocation, NamespaceAction};
#[allow(unused_imports)]
use crate::namespace::{
    entry_actions, mutation_actions, reserved_all, revocation_actions, watch_actions,
};
use crate::node::NodeState;
#[allow(unused_imports)]
use crate::node::NodeView;
use crate::node_import::{PeerBlockResult, PeerProbeResult};
#[allow(unused_imports)]
use crate::node_import::{install_result, probe_answered, work_of};
use crate::node_read::{GetOutcome, MaterializeOutcome};
#[allow(unused_imports)]
use crate::node_read::{download_result, scope_answered, scope_or};
use crate::node_session::{Broadcast, StagingAllocation};
#[allow(unused_imports)]
use crate::node_session::{
    heartbeat_result, mapped_result, region_acquired, session_attached, session_opened, staging_consumed, staging_deleted,
    staging_result, upload_result,
};
use crate::node_space::ConfigApplied;
#[allow(unused_imports)]
use crate::node_space::{config_changed, released_in_turn, restored_in_turn, tells};
use crate::peer_import::{ImportStart, PeerImportWork, PeerPullSpec, NODE_MAILBOX_CAPACITY};
use crate::protocol::PreparedObjectVersion;
use crate::replica_transfer::ReplicaStateView;
#[allow(unused_imports)]
use crate::replica_transfer::{
    replica_aborted, replica_activated, replica_discarded, replica_prepared,
};
use crate::retirement::RetirementReply;
use crate::session::BarrierWait;
#[allow(unused_imports)]
use crate::session::{BarrierView, SessionsView};
#[allow(unused_imports)]
use crate::staging::{later, range_views};
use crate::table::KeySet;
#[allow(unused_imports)]
use crate::value_write::proposal_made;
use crate::value_write::ValueCommit;
use vstd::prelude::*;

verus! {

/// Who asks.
#[derive(Clone, Copy, Debug, PartialEq, Eq, Structural)]
pub struct Asker {
    /// Whether the asker has gone away.
    pub gone: bool,
    /// The name under which the asker waits.
    pub waiter: u64,
}

/// What the asker is told.
pub enum NodeAnswer {
    /// Nobody is there to be told.
    Nobody,
    /// The asker is told when its wait is over.
    Later,
    Number(Result<u64, WorkerError>),
    Done(Result<(), WorkerError>),
    Memory { capacity: u64, used: u64 },
    Configured(Result<ConfigApplied, WorkerError>),
    Staged(Result<StagingAllocation, WorkerError>),
    Region(Result<HostRegionGrant, WorkerError>),
    Receipt(Result<HostReceipt, WorkerError>),
    Bytes(Result<Vec<u8>, WorkerError>),
    /// A value to be published.
    Value(Result<ValueCommit, WorkerError>),
    /// Values to be published together.
    Batch(Result<BatchCommit, WorkerError>),
    /// A layout to be published.
    Layout(Result<LayoutCommit, WorkerError>),
    Version(Result<PreparedObjectVersion, WorkerError>),
    Space(Result<Vec<FileSpaceConsumption>, WorkerError>),
    Read(Result<GetOutcome, WorkerError>),
    Cached(Result<(Option<u64>, CachedReadOutcome), WorkerError>),
    Whole(Result<MaterializeOutcome, WorkerError>),
    Into(Result<DataCoreMaterializeOutcome, WorkerError>),
    CachedInto(Result<(Option<u64>, DataCoreCachedReadOutcome), WorkerError>),
    /// Blocks to be pulled ahead of time.
    Prefetch(Vec<PeerPullSpec>),
    /// What came of asking for each block, and the imports to be carried out.
    Imports { starts: Vec<ImportStart>, work: Vec<PeerImportWork> },
    Installed(Result<bool, WorkerError>),
    Probe(Result<PeerProbeResult, WorkerError>),
    Block(Result<PeerBlockResult, WorkerError>),
    Replica(Result<ReplicaStateView, WorkerError>),
    /// What is to be done to what is remembered of files and directories.
    Names(Vec<NamespaceAction>),
    /// The answer is in what is remembered of files and directories.
    Remembered,
    Reference(Option<u64>),
    Released(Option<(u64, bool)>),
    Closed(Option<Option<(u64, bool)>>),
    References(Vec<(u64, u64)>),
    Live(bool),
}

/// What comes of a request.
pub struct Applied {
    pub answer: NodeAnswer,
    /// Those whose wait for a barrier or a retirement is over.
    pub finished: Vec<u64>,
    /// Those who waited for an import.
    pub imported: Vec<u64>,
    /// Events for clients.
    pub broadcast: Option<Broadcast>,
}

impl Applied {
    /// Whether nobody but the asker is told of anything.
    pub open spec fn quiet(self) -> bool {
        &&& self.finished@ == Seq::<u64>::empty()
        &&& self.only_finished()
    }

    /// Whether nobody but the asker and those who waited for a barrier or a retirement is told of
    /// anything.
    pub open spec fn only_finished(self) -> bool {
        &&& self.imported@ == Seq::<u64>::empty()
        &&& self.broadcast is None
    }

    fn telling(answer: NodeAnswer) -> (applied: Applied)
        ensures
            applied.answer == answer,
            applied.quiet(),
    {
        Applied { answer, finished: Vec::new(), imported: Vec::new(), broadcast: None }
    }

    fn finishing(answer: NodeAnswer, finished: Vec<u64>) -> (applied: Applied)
        ensures
            applied.answer == answer,
            applied.finished == finished,
            applied.only_finished(),
    {
        Applied { answer, finished, imported: Vec::new(), broadcast: None }
    }
}

/// Whether an answer is that all is well.
pub open spec fn is_well(answer: NodeAnswer) -> bool {
    answer matches NodeAnswer::Done(Ok(_))
}

/// Whether a write that may not begin is refused.
pub open spec fn refused<T>(result: Result<T, WorkerError>) -> bool {
    result matches Err(error) && error is ResourceExhausted
}

/// Whether an exec answer is the answer that is due.
pub open spec fn answers<T: View>(due: Result<T::V, WorkerError>, got: Result<T, WorkerError>) -> bool {
    match (due, got) {
        (Ok(due), Ok(got)) => got@ == due,
        (Err(due), Err(got)) => got == due,
        _ => false,
    }
}

impl NodeView {
    /// Whether there are numbers left for what a request may need: barriers, events and downloads.
    pub open spec fn numbers_left(self, command: NodeCommand) -> bool {
        match command {
            NodeCommand::InvalidateCurrent { .. }
            | NodeCommand::DataCoreFinishPrepared { .. } => self.can_broadcast(),
            NodeCommand::GetResolved { resolved, .. } => resolved@.layout matches Some(layout)
                ==> self.next_transfer + layout.extents.len() <= u64::MAX,
            NodeCommand::GetCached { key, .. } => self.cache.entries.contains_key(key@)
                ==> self.next_transfer + self.cache.entries[key@].layout.extents.len() <= u64::MAX,
            _ => true,
        }
    }

    /// The counter of generations after a request. Only a lookup or an open takes from it.
    pub open spec fn generations_after(self, command: NodeCommand, counter: u64, now: u64) -> u64 {
        match command {
            NodeCommand::FilesystemOpenHandleWithReference { inode }
            | NodeCommand::FilesystemAcquireInodeReference { inode } => self.references.counted(
                inode,
                counter,
                now,
            ),
            _ => counter,
        }
    }

    /// What waiting for a barrier does, and what the asker is told.
    pub open spec fn barrier_awaited(
        self,
        barrier_id: u64,
        waiter: u64,
        next: NodeView,
        answer: NodeAnswer,
    ) -> bool {
        if !self.sessions.barriers.contains_key(barrier_id) {
            next == self && is_well(answer)
        } else if self.sessions.barriers[barrier_id].waiter is Some {
            next == self && (answer matches NodeAnswer::Done(Err(error)) && error is Conflict)
        } else {
            answer is Later && next == (NodeView {
                sessions: SessionsView {
                    barriers: self.sessions.barriers.insert(
                        barrier_id,
                        (BarrierView {
                            waiter: Some(waiter),
                            ..self.sessions.barriers[barrier_id]
                        }),
                    ),
                    ..self.sessions
                },
                ..self
            })
        }
    }
}

/// The reply of a retirement that an answer passes on.
pub open spec fn phase_reply(answer: NodeAnswer) -> RetirementReply {
    match answer {
        NodeAnswer::Done(Ok(_)) => RetirementReply::Done,
        NodeAnswer::Done(Err(error)) => RetirementReply::Failed(error),
        _ => RetirementReply::Waiting,
    }
}

/// What a request to read does: where the asker has gone, the read it belongs to is over.
pub open spec fn read_abandoned(
    before: NodeView,
    after: NodeView,
    read_scope_id: u64,
    result: Applied,
) -> bool {
    &&& result.answer is Nobody
    &&& result.only_finished()
    &&& before.scope_ended(read_scope_id, after, result.finished@)
}

/// What a request does to the node, and what comes of it.
pub open spec fn applied(
    before: NodeView,
    command: NodeCommand,
    asker: Asker,
    closed: Set<u64>,
    writes_under_way: usize,
    generations: u64,
    now: u64,
    after: NodeView,
    result: Applied,
) -> bool {
    let admitted = writes_under_way < NODE_MAILBOX_CAPACITY;
    match command {
        NodeCommand::OpenSession { shared_memory, supports_write_lease_release } => {
            &&& result.quiet()
            &&& result.answer matches NodeAnswer::Number(opened) && session_opened(
                before,
                after,
                shared_memory,
                supports_write_lease_release,
                opened,
            )
        },
        NodeCommand::AttachSession { session_id } => {
            &&& result.quiet()
            &&& result.answer matches NodeAnswer::Done(attached) && session_attached(
                before,
                after,
                session_id,
                attached,
            )
        },
        NodeCommand::Heartbeat {
            session_id,
            released_view_through,
            released_write_allocations,
            finished_read_request_through,
            renew_cache,
            stream_closed,
        } => {
            &&& result.only_finished()
            &&& result.answer matches NodeAnswer::Number(granted) && heartbeat_result(
                before,
                after,
                session_id,
                released_view_through,
                released_write_allocations@,
                finished_read_request_through,
                renew_cache,
                stream_closed,
                now,
                granted,
                result.finished@,
            )
        },
        NodeCommand::MetadataLease { valid_until, watch_connected } => {
            &&& result.quiet()
            &&& after == before.lease_noted(valid_until, watch_connected)
            &&& result.answer matches NodeAnswer::Names(actions) && views(actions@)
                == watch_actions(watch_connected)
        },
        NodeCommand::ResourceSummary => {
            &&& result.quiet()
            &&& after == before
            &&& result.answer == (NodeAnswer::Memory {
                capacity: before.arena.capacity,
                used: before.arena.used,
            })
        },
        NodeCommand::CloseSession { session_id } => {
            &&& result.only_finished()
            &&& is_well(result.answer)
            &&& after == before.closed(session_id).lapsed(now)
            &&& before.closed(session_id).sessions.finishes(
                before.closed(session_id).sessions.expiry_change(now),
                result.finished@,
            )
        },
        NodeCommand::ValidateSession { session_id } => {
            &&& result.quiet()
            &&& after == before
            &&& result.answer matches NodeAnswer::Done(valid) && match valid {
                Ok(_) => before.sessions.live(session_id),
                Err(error) => error is UnknownSession && !before.sessions.live(session_id),
            }
        },
        NodeCommand::Acknowledge { session_id, sequence } => {
            &&& result.only_finished()
            &&& if before.sessions.sessions.contains_key(session_id) {
                &&& is_well(result.answer)
                &&& after == (NodeView {
                    sessions: before.sessions.acknowledged(session_id, sequence),
                    ..before
                })
                &&& before.sessions.finishes(
                    SessionsView::ack_change(session_id, sequence),
                    result.finished@,
                )
            } else {
                &&& result.answer matches NodeAnswer::Done(Err(error)) && error is UnknownSession
                &&& after == before
                &&& result.finished@ == Seq::<u64>::empty()
            }
        },
        NodeCommand::AllocateStaging { session_id, length, release_token } => {
            &&& result.quiet()
            &&& result.answer matches NodeAnswer::Staged(allocated) && staging_result(
                before,
                after,
                session_id,
                length,
                release_token@,
                now,
                allocated,
            )
        },
        NodeCommand::AcquireRegion { session_id, region_id } => {
            &&& result.quiet()
            &&& after == before
            &&& result.answer matches NodeAnswer::Region(acquired) && region_acquired(
                before,
                session_id,
                region_id,
                acquired,
            )
        },
        NodeCommand::DeleteStaging { session_id, staging_id } => {
            &&& result.quiet()
            &&& result.answer matches NodeAnswer::Done(deleted) && staging_deleted(
                before,
                after,
                session_id,
                staging_id,
                deleted,
            )
        },
        NodeCommand::ConsumeStaging { session_id, staging_id, receipt } => {
            &&& result.quiet()
            &&& result.answer matches NodeAnswer::Bytes(consumed) && staging_consumed(
                before,
                after,
                session_id,
                staging_id,
                receipt@,
                consumed,
            )
        },
        NodeCommand::Upload { transfer_id, bytes } => {
            &&& result.quiet()
            &&& result.answer matches NodeAnswer::Receipt(uploaded) && upload_result(
                before,
                after,
                transfer_id,
                bytes@,
                uploaded,
            )
        },
        NodeCommand::FillMapped { transfer_id, bytes } => {
            &&& result.quiet()
            &&& result.answer matches NodeAnswer::Receipt(filled) && mapped_result(
                before,
                after,
                transfer_id,
                bytes@,
                filled,
            )
        },
        NodeCommand::SetValue { session_id, key, staging_id, receipt, operation_id, condition } => {
            &&& result.quiet()
            &&& result.answer matches NodeAnswer::Value(proposed) && if admitted {
                proposal_made(
                    before,
                    after,
                    before.staged_proposed(
                        session_id,
                        key@,
                        staging_id,
                        receipt@,
                        operation_id@,
                        condition@,
                        now,
                    ),
                    proposed,
                )
            } else {
                after == before && refused(proposed)
            }
        },
        NodeCommand::MSet { session_id, entries, operation_id } => {
            &&& result.quiet()
            &&& result.answer matches NodeAnswer::Batch(proposed) && if admitted {
                let (next, due) = before.batch_proposed(session_id, views(entries@), operation_id@);
                after == next && answers(due, proposed)
            } else {
                after == before && refused(proposed)
            }
        },
        NodeCommand::SetInline { session_id, key, bytes, operation_id, condition } => {
            &&& result.quiet()
            &&& result.answer matches NodeAnswer::Value(proposed) && if admitted {
                proposal_made(
                    before,
                    after,
                    before.inline_proposed(
                        session_id,
                        key@,
                        bytes@,
                        operation_id@,
                        condition@,
                        now,
                    ),
                    proposed,
                )
            } else {
                after == before && refused(proposed)
            }
        },
        NodeCommand::DataCoreSetInline { key, bytes, operation_id, condition } => {
            &&& result.quiet()
            &&& result.answer matches NodeAnswer::Value(proposed) && if admitted {
                proposal_made(
                    before,
                    after,
                    before.own_proposed(key@, bytes@, operation_id@, condition@, now),
                    proposed,
                )
            } else {
                after == before && refused(proposed)
            }
        },
        NodeCommand::DataCorePrepareRange { key, offset, bytes, operation_id, resolved } => {
            &&& result.quiet()
            &&& result.answer matches NodeAnswer::Version(prepared) && preparation_made(
                before,
                after,
                before.file_write_prepared(key@, offset, bytes@, operation_id@, resolved@),
                prepared,
            )
        },
        NodeCommand::DataCorePrepareSparse {
            key,
            logical_length,
            offset,
            bytes,
            operation_id,
            expected_version,
        } => {
            &&& result.quiet()
            &&& result.answer matches NodeAnswer::Version(prepared) && preparation_made(
                before,
                after,
                before.sparse_prepared(
                    key@,
                    logical_length,
                    offset,
                    bytes@,
                    operation_id@,
                    expected_version,
                ),
                prepared,
            )
        },
        NodeCommand::DataCorePrepareTruncate { key, new_length, operation_id, resolved } => {
            &&& result.quiet()
            &&& after == before
            &&& result.answer matches NodeAnswer::Version(prepared) && answers(
                before.truncate_prepared(key@, new_length, operation_id@, resolved@),
                prepared,
            )
        },
        NodeCommand::DataCorePreparePunchHole { key, offset, length, operation_id, resolved } => {
            &&& result.quiet()
            &&& after == before
            &&& result.answer matches NodeAnswer::Version(prepared) && answers(
                before.punch_prepared(key@, offset, length, operation_id@, resolved@),
                prepared,
            )
        },
        NodeCommand::DataCoreReserveFileSpace { reservation_id, length } => {
            &&& result.quiet()
            &&& result.answer matches NodeAnswer::Done(reserved) && match before.arena.reserved(
                reservation_id@,
                length,
            ) {
                Ok(arena) => reserved is Ok && after == (NodeView { arena, ..before }),
                Err(fault) => tells(Some(fault), reserved) && after == before,
            }
        },
        NodeCommand::DataCoreConsumeFileSpace { ranges } => {
            &&& result.quiet()
            &&& result.answer matches NodeAnswer::Space(consumed) && match (
                before.arena.consumed_all(range_views(ranges@)),
                consumed,
            ) {
                (Ok(arena), Ok(consumptions)) => after == (NodeView { arena, ..before }) && views(
                    consumptions@,
                ) == range_views(ranges@),
                (Err(fault), Err(error)) => after == before && arena_error_means(fault, error),
                _ => false,
            }
        },
        NodeCommand::DataCoreRestoreFileSpace { consumptions } => {
            &&& result.quiet()
            &&& after == (NodeView {
                arena: restored_in_turn(before.arena, views(consumptions@)).0,
                ..before
            })
            &&& result.answer matches NodeAnswer::Done(restored) && tells(
                restored_in_turn(before.arena, views(consumptions@)).1,
                restored,
            )
        },
        NodeCommand::DataCoreReleaseFileSpace { ranges } => {
            &&& result.quiet()
            &&& after == (NodeView {
                arena: released_in_turn(before.arena, range_views(ranges@)).0,
                ..before
            })
            &&& result.answer matches NodeAnswer::Done(released) && tells(
                released_in_turn(before.arena, range_views(ranges@)).1,
                released,
            )
        },
        NodeCommand::DataCoreFinishPrepared { prepared, version, rejected } => {
            let ended = before.preparations_ended(prepared@.new_replicas, version, rejected);
            &&& is_well(result.answer)
            &&& result.finished@ == Seq::<u64>::empty()
            &&& result.imported@ == Seq::<u64>::empty()
            &&& match (version, result.broadcast) {
                (Some(version), Some(sent)) => after == ended.broadcast(
                    prepared@.object_key,
                    version,
                    now,
                ) && ended.announced(prepared@.object_key, version, now, sent),
                (None, None) => after == ended,
                _ => false,
            }
        },
        NodeCommand::DataCoreSetRangeInline { key, offset, bytes, operation_id, resolved } => {
            &&& result.quiet()
            &&& result.answer matches NodeAnswer::Layout(proposed) && if admitted {
                layout_proposal_made(
                    before,
                    after,
                    before.own_range_proposed(key@, offset, bytes@, operation_id@, resolved@),
                    proposed,
                )
            } else {
                after == before && refused(proposed)
            }
        },
        NodeCommand::SetRange { input, resolved } => {
            &&& result.quiet()
            &&& result.answer matches NodeAnswer::Layout(proposed) && if admitted {
                layout_proposal_made(
                    before,
                    after,
                    before.range_proposed(input@, resolved@),
                    proposed,
                )
            } else {
                after == before && refused(proposed)
            }
        },
        NodeCommand::Delete { session_id, key, operation_id } => {
            &&& result.quiet()
            &&& after == before
            &&& result.answer matches NodeAnswer::Done(allowed) && if admitted {
                allowed == checked(before.delete_fault(Some(session_id), key@, operation_id@))
            } else {
                refused(allowed)
            }
        },
        NodeCommand::DataCoreDelete { key, operation_id } => {
            &&& result.quiet()
            &&& after == before
            &&& result.answer matches NodeAnswer::Done(allowed) && if admitted {
                allowed == checked(before.delete_fault(None, key@, operation_id@))
            } else {
                refused(allowed)
            }
        },
        NodeCommand::GetResolved {
            session_id,
            read_scope_id,
            read_request_id,
            resolved,
            range,
            clamp_range,
            max_inline_bytes,
            cache_refill,
        } => if asker.gone {
            read_abandoned(before, after, read_scope_id, result)
        } else {
            let (next, due) = before.read_resolved(
                session_id,
                read_scope_id,
                read_request_id,
                resolved@,
                range,
                clamp_range,
                max_inline_bytes,
                view_of(cache_refill),
                now,
            );
            &&& result.quiet()
            &&& after == next
            &&& result.answer matches NodeAnswer::Read(outcome) && answers(due, outcome)
        },
        NodeCommand::GetCached {
            session_id,
            read_scope_id,
            read_request_id,
            key,
            node_epoch,
            range,
            clamp_range,
            max_inline_bytes,
        } => if asker.gone {
            read_abandoned(before, after, read_scope_id, result)
        } else {
            let (next, due) = before.cached(
                session_id,
                read_scope_id,
                read_request_id,
                key@,
                node_epoch,
                range,
                clamp_range,
                max_inline_bytes,
                now,
            );
            &&& result.quiet()
            &&& after == next
            &&& result.answer matches NodeAnswer::Cached(found) && match found {
                Ok((token, outcome)) => due == Ok::<(Option<u64>, CachedView), WorkerError>(
                    (token, outcome@),
                ),
                Err(error) => due == Err::<(Option<u64>, CachedView), WorkerError>(error),
            }
        },
        NodeCommand::MaterializeResolved { session_id, read_scope_id, resolved } =>
            if asker.gone {
            read_abandoned(before, after, read_scope_id, result)
        } else {
            &&& result.quiet()
            &&& after == before
            &&& result.answer matches NodeAnswer::Whole(outcome) && answers(
                before.materialized(session_id, read_scope_id, resolved@),
                outcome,
            )
        },
        NodeCommand::DataCoreMaterializeInto {
            read_scope_id,
            resolved,
            range,
            clamp_range,
            output,
            cache_refill,
            prefetch_full_layout,
        } => if asker.gone {
            read_abandoned(before, after, read_scope_id, result)
        } else {
            let (next, due) = before.materialized_into(
                read_scope_id,
                resolved@,
                range,
                clamp_range,
                output@,
                view_of(cache_refill),
                prefetch_full_layout,
                now,
            );
            &&& result.quiet()
            &&& after == next
            &&& result.answer matches NodeAnswer::Into(outcome) && answers(due, outcome)
        },
        NodeCommand::PlanFilesystemPeerPrefetch { read_scope_id, resolved } => if asker.gone {
            read_abandoned(before, after, read_scope_id, result)
        } else {
            &&& result.quiet()
            &&& after == before
            &&& result.answer matches NodeAnswer::Prefetch(planned) && views(planned@)
                == before.directory_plan(read_scope_id, views(resolved@)).planned
        },
        NodeCommand::DataCoreGetCached {
            read_scope_id,
            key,
            node_epoch,
            exact_version,
            range,
            clamp_range,
            output,
        } => if asker.gone {
            read_abandoned(before, after, read_scope_id, result)
        } else {
            let (next, due) = before.cached_into(
                read_scope_id,
                key@,
                node_epoch,
                exact_version,
                range,
                clamp_range,
                output@,
                now,
            );
            &&& result.quiet()
            &&& after == next
            &&& result.answer matches NodeAnswer::CachedInto(found) && match found {
                Ok((token, outcome)) => due == Ok::<(Option<u64>, CachedIntoView), WorkerError>(
                    (token, outcome@),
                ),
                Err(error) => due == Err::<(Option<u64>, CachedIntoView), WorkerError>(error),
            }
        },
        NodeCommand::ImportPeerBlock {
            block_id,
            bytes,
            checksum,
            length,
            read_scope_id,
            import_attempt,
        } => {
            &&& result.broadcast is None
            &&& result.answer matches NodeAnswer::Installed(installed) && install_result(
                before,
                after,
                block_id@,
                bytes@,
                checksum@,
                length,
                read_scope_id,
                import_attempt,
                installed,
                result.imported@,
                result.finished@,
            )
        },
        NodeCommand::EnsurePeerBlocks { read_scope_id, requests } => {
            let wanted = requests@.map_values(
                |request: (PeerPullSpec, u64)| (request.0@, request.1),
            );
            &&& result.quiet()
            &&& result.answer matches NodeAnswer::Imports { starts, work } && (after, starts@)
                == before.imports_asked(read_scope_id, wanted, closed) && views(work@) == work_of(
                wanted,
                starts@,
            )
        },
        NodeCommand::Download { transfer_id } => {
            &&& result.only_finished()
            &&& result.answer matches NodeAnswer::Bytes(fetched) && download_result(
                before,
                after,
                transfer_id,
                now,
                fetched,
                result.finished@,
            )
        },
        NodeCommand::PeerProbe { source_node_id, nonce } => {
            &&& result.quiet()
            &&& after == before
            &&& result.answer matches NodeAnswer::Probe(answer) && probe_answered(
                before,
                source_node_id@,
                nonce@,
                answer,
            )
        },
        NodeCommand::PeerPullBlock { source_node_id, block_id, range } => {
            &&& result.quiet()
            &&& after == before
            &&& result.answer matches NodeAnswer::Block(served) && answers(
                before.served(source_node_id@, block_id@, range),
                served,
            )
        },
        NodeCommand::PrepareReplica { plan_id, block_id, bytes, checksum, length } => {
            &&& result.quiet()
            &&& after == (NodeView { replicas: after.replicas, ..before })
            &&& result.answer matches NodeAnswer::Replica(told) && replica_prepared(
                before.replicas,
                after.replicas,
                plan_id@,
                block_id@,
                bytes@,
                checksum@,
                length,
                now,
                told,
            )
        },
        NodeCommand::ActivateReplica { plan_id } => {
            &&& result.quiet()
            &&& after == (NodeView { replicas: after.replicas, arena: after.arena, ..before })
            &&& result.answer matches NodeAnswer::Replica(told) && replica_activated(
                before.replicas,
                after.replicas,
                before.arena,
                after.arena,
                plan_id@,
                told,
            )
        },
        NodeCommand::AbortReplica { plan_id } => {
            &&& result.quiet()
            &&& after == (NodeView { replicas: after.replicas, ..before })
            &&& result.answer matches NodeAnswer::Replica(told) && replica_aborted(
                before.replicas,
                after.replicas,
                plan_id@,
                told,
            )
        },
        NodeCommand::DiscardReplicaAttempt { plan_id } => {
            &&& result.quiet()
            &&& after == (NodeView { replicas: after.replicas, arena: after.arena, ..before })
            &&& result.answer matches NodeAnswer::Done(discarded) && replica_discarded(
                before.replicas,
                after.replicas,
                before.arena,
                after.arena,
                plan_id@,
                discarded,
            )
        },
        NodeCommand::ReplicaStatus { plan_id } => {
            &&& result.quiet()
            &&& after == before
            &&& result.answer matches NodeAnswer::Replica(told) && match told {
                Ok(view) => before.replicas.contains_key(plan_id@) && view@
                    == before.replicas[plan_id@].told(plan_id@),
                Err(error) => !before.replicas.contains_key(plan_id@) && error is NotFound,
            }
        },
        NodeCommand::InvalidateCurrent { key, minimum_version } => {
            let told = before.broadcast(key@, minimum_version, now);
            &&& result.finished@ == Seq::<u64>::empty()
            &&& result.imported@ == Seq::<u64>::empty()
            &&& result.broadcast matches Some(sent) && before.announced(
                key@,
                minimum_version,
                now,
                sent,
            ) && match sent.barrier_id {
                Some(barrier_id) => told.barrier_awaited(
                    barrier_id,
                    asker.waiter,
                    after,
                    result.answer,
                ),
                None => after == told && is_well(result.answer),
            }
        },
        NodeCommand::InvalidateFilesystemBinding {
            inode,
            through_generation,
            minimum_inode_revision,
        } => {
            &&& result.quiet()
            &&& after == before
            &&& result.answer matches NodeAnswer::Names(actions) && views(actions@)
                == revocation_actions(inode, through_generation, minimum_inode_revision)
        },
        NodeCommand::FilesystemGetBinding { .. }
        | NodeCommand::FilesystemCacheBinding { .. }
        | NodeCommand::FilesystemGetDentry { .. }
        | NodeCommand::FilesystemCacheNegativeDentry { .. }
        | NodeCommand::FilesystemGetDirectoryPage { .. }
        | NodeCommand::FilesystemCacheDirectoryPage { .. }
        | NodeCommand::FilesystemGetHandle { .. } => {
            &&& result.quiet()
            &&& after == before
            &&& result.answer is Remembered
        },
        NodeCommand::FilesystemApplyLocalNamespaceMutation {
            changed_directories,
            changed_inodes,
            removed_dentries,
            refreshed_directories,
        } => {
            &&& result.quiet()
            &&& after == before
            &&& result.answer matches NodeAnswer::Names(actions) && views(actions@)
                == mutation_actions(
                changed_directories@,
                changed_inodes@,
                views(removed_dentries@),
                refreshed_directories as nat,
            )
        },
        NodeCommand::FilesystemInstallResolvedDentry { resolved, apply_directory_mutation } => {
            &&& result.quiet()
            &&& after == (NodeView {
                references: reserved_all(before.references, resolved@.prefetched, now).installed(
                    resolved@.inode,
                    resolved@.reference_generation,
                    resolved@.reference_lease_millis,
                    now,
                ),
                ..before
            })
            &&& result.answer matches NodeAnswer::Names(actions) && views(actions@)
                == entry_actions(resolved@, apply_directory_mutation)
        },
        NodeCommand::FilesystemOpenHandleWithReference { inode }
        | NodeCommand::FilesystemAcquireInodeReference { inode } => {
            &&& result.quiet()
            &&& after == (NodeView {
                references: before.references.acquired(inode, generations, now),
                ..before
            })
            &&& result.answer == NodeAnswer::Reference(
                before.references.begun(inode, generations, now),
            )
        },
        NodeCommand::FilesystemCloseHandleWithReference { inode } => {
            &&& result.quiet()
            &&& match inode {
                Some(inode) => after == (NodeView {
                    references: before.references.released(inode, 1),
                    ..before
                }) && result.answer == NodeAnswer::Closed(
                    Some(before.references.given_back(inode, 1)),
                ),
                None => after == before && result.answer == NodeAnswer::Closed(None),
            }
        },
        NodeCommand::FilesystemReleaseInodeReference { inode, count } => {
            &&& result.quiet()
            &&& after == (NodeView {
                references: before.references.released(inode, count),
                ..before
            })
            &&& result.answer == NodeAnswer::Released(before.references.given_back(inode, count))
        },
        NodeCommand::FilesystemMarkInodeOrphan { inode } => {
            &&& result.quiet()
            &&& is_well(result.answer)
            &&& after == (NodeView { references: before.references.orphaned(inode), ..before })
        },
        NodeCommand::FilesystemInstallInodeReference { inode, generation, lease_millis } => {
            &&& result.quiet()
            &&& is_well(result.answer)
            &&& after == (NodeView {
                references: before.references.installed(inode, generation, lease_millis, now),
                ..before
            })
        },
        NodeCommand::FilesystemInodeReferenceSnapshot => {
            &&& result.quiet()
            &&& after == before
            &&& result.answer matches NodeAnswer::References(snapshot)
                && before.references.listed(snapshot@)
        },
        NodeCommand::FilesystemRenewInodeReferenceLeases { references, lease_millis } => {
            &&& result.quiet()
            &&& is_well(result.answer)
            &&& after == (NodeView {
                references: before.references.renewed(
                    references@,
                    later(now, millis_to_nanos(lease_millis)),
                ),
                ..before
            })
        },
        NodeCommand::FilesystemHasLiveInodeReference { inode } => {
            &&& result.quiet()
            &&& after == before
            &&& result.answer == NodeAnswer::Live(before.references.has_live(inode, now))
        },
        NodeCommand::PrepareBlockRetirement { retirement_id, block_ids } => {
            &&& result.only_finished()
            &&& result.answer is Done || result.answer is Later
            &&& before.prepare_requested(
                retirement_id@,
                views(block_ids@),
                asker.waiter,
                after,
                phase_reply(result.answer),
                result.finished@,
            )
        },
        NodeCommand::FinalizeBlockRetirement { retirement_id, block_ids } => {
            &&& result.only_finished()
            &&& result.answer is Done || result.answer is Later
            &&& before.final_requested(
                retirement_id@,
                views(block_ids@),
                asker.waiter,
                after,
                phase_reply(result.answer),
                result.finished@,
            )
        },
        NodeCommand::BeginReadScope { session_id } => {
            let begun = scope_or(before.scope_fault(session_id), before.next_read_scope);
            &&& result.only_finished()
            &&& result.answer == NodeAnswer::Number(begun)
            &&& scope_answered(before, after, asker.gone, begun, result.finished@)
        },
        NodeCommand::BeginDataCoreReadScope => {
            let begun = scope_or(before.own_scope_fault(), before.next_read_scope);
            &&& result.only_finished()
            &&& result.answer == NodeAnswer::Number(begun)
            &&& scope_answered(before, after, asker.gone, begun, result.finished@)
        },
        NodeCommand::FinishReadScope { scope_id } => {
            &&& result.only_finished()
            &&& is_well(result.answer)
            &&& before.scope_ended(scope_id, after, result.finished@)
        },
        NodeCommand::WaitInvalidation { barrier_id } => {
            &&& result.quiet()
            &&& before.barrier_awaited(barrier_id, asker.waiter, after, result.answer)
        },
        NodeCommand::ApplyConfigChange { change } => {
            &&& result.quiet()
            &&& result.answer matches NodeAnswer::Configured(applied) && config_changed(
                before,
                after,
                change,
                applied,
            )
        },
    }
}

impl NodeState {
    /// Whether there are numbers left for what a request may need.
    pub fn numbers_left(&self, command: &NodeCommand) -> (left: bool)
        ensures
            left == self@.numbers_left(*command),
    {
        match command {
            NodeCommand::InvalidateCurrent { .. } => self.can_broadcast(),
            NodeCommand::DataCoreFinishPrepared { .. } => self.can_broadcast(),
            NodeCommand::GetResolved { resolved, .. } => match &resolved.layout {
                Some(layout) => layout.extents.len() as u64 <= u64::MAX - self.next_transfer,
                None => true,
            },
            NodeCommand::GetCached { key, .. } => match self.current_cache.entries.get(key) {
                Some(entry) => entry.layout.extents.len() as u64 <= u64::MAX - self.next_transfer,
                None => true,
            },
            _ => true,
        }
    }

    fn wait_for_barrier(&mut self, barrier_id: u64, waiter: u64) -> (answer: NodeAnswer)
        requires
            old(self)@.wf(),
        ensures
            final(self)@.wf(),
            old(self)@.barrier_awaited(barrier_id, waiter, final(self)@, answer),
    {
        match self.sessions.attach_barrier_waiter(barrier_id, waiter) {
            BarrierWait::Over => NodeAnswer::Done(Ok(())),
            BarrierWait::Taken => NodeAnswer::Done(Err(WorkerError::Conflict)),
            BarrierWait::Waiting => NodeAnswer::Later,
        }
    }

    fn abandon_read(&mut self, read_scope_id: u64) -> (result: Applied)
        requires
            old(self)@.wf(),
        ensures
            final(self)@.wf(),
            read_abandoned(old(self)@, final(self)@, read_scope_id, result),
    {
        let finished: Vec<u64> = self.finish_read_scope(read_scope_id);
        Applied::finishing(NodeAnswer::Nobody, finished)
    }

    /// Applies a request. New references take their generations from the counter, which all nodes
    /// of a process share.
    #[verifier::rlimit(60)]
    pub fn apply(
        &mut self,
        command: NodeCommand,
        asker: Asker,
        closed: &KeySet<u64>,
        writes_under_way: usize,
        generations: &mut u64,
        now: u64,
    ) -> (result: Applied)
        requires
            old(self)@.wf(),
            old(self)@.numbers_left(command),
        ensures
            final(self)@.wf(),
            applied(
                old(self)@,
                command,
                asker,
                closed@,
                writes_under_way,
                *old(generations),
                now,
                final(self)@,
                result,
            ),
            *final(generations) == old(self)@.generations_after(command, *old(generations), now),
    {
        match command {
            NodeCommand::OpenSession { shared_memory, supports_write_lease_release } => {
                let opened = self.open_session_with_write_release(
                    shared_memory,
                    supports_write_lease_release,
                );
                Applied::telling(NodeAnswer::Number(opened))
            },
            NodeCommand::AttachSession { session_id } => {
                let attached = self.attach_session(session_id);
                Applied::telling(NodeAnswer::Done(attached))
            },
            NodeCommand::Heartbeat {
                session_id,
                released_view_through,
                released_write_allocations,
                finished_read_request_through,
                renew_cache,
                stream_closed,
            } => {
                let (granted, finished) = self.heartbeat_inner(
                    session_id,
                    released_view_through,
                    &released_write_allocations,
                    finished_read_request_through,
                    renew_cache,
                    stream_closed,
                    now,
                );
                Applied::finishing(NodeAnswer::Number(granted), finished)
            },
            NodeCommand::MetadataLease { valid_until, watch_connected } => {
                let actions = self.note_metadata_lease(valid_until, watch_connected);
                Applied::telling(NodeAnswer::Names(actions))
            },
            NodeCommand::ResourceSummary => Applied::telling(
                NodeAnswer::Memory { capacity: self.arena.capacity, used: self.arena.used },
            ),
            NodeCommand::CloseSession { session_id } => {
                let finished = self.close_session(session_id, now);
                Applied::finishing(NodeAnswer::Done(Ok(())), finished)
            },
            NodeCommand::ValidateSession { session_id } => {
                let valid = match self.sessions.live_session(session_id) {
                    Ok(_) => Ok(()),
                    Err(error) => Err(error),
                };
                Applied::telling(NodeAnswer::Done(valid))
            },
            NodeCommand::Acknowledge { session_id, sequence } => match self.acknowledge(
                session_id,
                sequence,
            ) {
                Ok(finished) => Applied::finishing(NodeAnswer::Done(Ok(())), finished),
                Err(error) => Applied::telling(NodeAnswer::Done(Err(error))),
            },
            NodeCommand::AllocateStaging { session_id, length, release_token } => {
                let allocated = self.allocate_staging(session_id, length, release_token, now);
                Applied::telling(NodeAnswer::Staged(allocated))
            },
            NodeCommand::AcquireRegion { session_id, region_id } => {
                let acquired = self.acquire_region(session_id, region_id);
                Applied::telling(NodeAnswer::Region(acquired))
            },
            NodeCommand::DeleteStaging { session_id, staging_id } => {
                let deleted = self.delete_staging(session_id, staging_id);
                Applied::telling(NodeAnswer::Done(deleted))
            },
            NodeCommand::ConsumeStaging { session_id, staging_id, receipt } => {
                let consumed = self.consume_staging(session_id, staging_id, &receipt);
                Applied::telling(NodeAnswer::Bytes(consumed))
            },
            NodeCommand::Upload { transfer_id, bytes } => {
                let uploaded = self.upload(transfer_id, bytes);
                Applied::telling(NodeAnswer::Receipt(uploaded))
            },
            NodeCommand::FillMapped { transfer_id, bytes } => {
                let filled = self.fill_mapped(transfer_id, bytes);
                Applied::telling(NodeAnswer::Receipt(filled))
            },
            NodeCommand::SetValue {
                session_id,
                key,
                staging_id,
                receipt,
                operation_id,
                condition,
            } => {
                let proposed = match admit_write(writes_under_way) {
                    Ok(_) => self.set(
                        session_id,
                        key,
                        staging_id,
                        &receipt,
                        operation_id,
                        condition,
                        now,
                    ),
                    Err(error) => Err(error),
                };
                Applied::telling(NodeAnswer::Value(proposed))
            },
            NodeCommand::MSet { session_id, entries, operation_id } => {
                let proposed = match admit_write(writes_under_way) {
                    Ok(_) => self.mset(session_id, entries, operation_id),
                    Err(error) => Err(error),
                };
                Applied::telling(NodeAnswer::Batch(proposed))
            },
            NodeCommand::SetInline { session_id, key, bytes, operation_id, condition } => {
                let proposed = match admit_write(writes_under_way) {
                    Ok(_) => self.commit_bytes(
                        session_id,
                        key,
                        bytes,
                        operation_id,
                        condition,
                        now,
                    ),
                    Err(error) => Err(error),
                };
                Applied::telling(NodeAnswer::Value(proposed))
            },
            NodeCommand::DataCoreSetInline { key, bytes, operation_id, condition } => {
                let proposed = match admit_write(writes_under_way) {
                    Ok(_) => self.commit_bytes_for_data_core(
                        key,
                        bytes,
                        operation_id,
                        condition,
                        now,
                    ),
                    Err(error) => Err(error),
                };
                Applied::telling(NodeAnswer::Value(proposed))
            },
            NodeCommand::DataCorePrepareRange { key, offset, bytes, operation_id, resolved } => {
                let prepared = self.prepare_range_for_filesystem(
                    key,
                    offset,
                    bytes,
                    operation_id,
                    &resolved,
                );
                Applied::telling(NodeAnswer::Version(prepared))
            },
            NodeCommand::DataCorePrepareSparse {
                key,
                logical_length,
                offset,
                bytes,
                operation_id,
                expected_version,
            } => {
                let prepared = self.prepare_sparse_for_filesystem(
                    key,
                    logical_length,
                    offset,
                    bytes,
                    operation_id,
                    expected_version,
                );
                Applied::telling(NodeAnswer::Version(prepared))
            },
            NodeCommand::DataCorePrepareTruncate { key, new_length, operation_id, resolved } => {
                let prepared = self.prepare_truncate_for_filesystem(
                    key,
                    new_length,
                    &operation_id,
                    &resolved,
                );
                Applied::telling(NodeAnswer::Version(prepared))
            },
            NodeCommand::DataCorePreparePunchHole {
                key,
                offset,
                length,
                operation_id,
                resolved,
            } => {
                let prepared = self.prepare_punch_hole_for_filesystem(
                    key,
                    offset,
                    length,
                    &operation_id,
                    &resolved,
                );
                Applied::telling(NodeAnswer::Version(prepared))
            },
            NodeCommand::DataCoreReserveFileSpace { reservation_id, length } => {
                let reserved = self.reserve_file_space(reservation_id, length);
                Applied::telling(NodeAnswer::Done(reserved))
            },
            NodeCommand::DataCoreConsumeFileSpace { ranges } => {
                let consumed = self.consume_file_space(&ranges);
                Applied::telling(NodeAnswer::Space(consumed))
            },
            NodeCommand::DataCoreRestoreFileSpace { consumptions } => {
                let restored = self.restore_file_space(&consumptions);
                Applied::telling(NodeAnswer::Done(restored))
            },
            NodeCommand::DataCoreReleaseFileSpace { ranges } => {
                let released = self.release_file_space(&ranges);
                Applied::telling(NodeAnswer::Done(released))
            },
            NodeCommand::DataCoreFinishPrepared { prepared, version, rejected } => {
                let broadcast = self.finish_filesystem_preparation(
                    &prepared,
                    version,
                    rejected,
                    now,
                );
                Applied {
                    answer: NodeAnswer::Done(Ok(())),
                    finished: Vec::new(),
                    imported: Vec::new(),
                    broadcast,
                }
            },
            NodeCommand::DataCoreSetRangeInline { key, offset, bytes, operation_id, resolved } => {
                let proposed = match admit_write(writes_under_way) {
                    Ok(_) => self.set_range_inline_for_data_core(
                        key,
                        offset,
                        bytes,
                        operation_id,
                        &resolved,
                    ),
                    Err(error) => Err(error),
                };
                Applied::telling(NodeAnswer::Layout(proposed))
            },
            NodeCommand::SetRange { input, resolved } => {
                let proposed = match admit_write(writes_under_way) {
                    Ok(_) => self.set_range(input, &resolved),
                    Err(error) => Err(error),
                };
                Applied::telling(NodeAnswer::Layout(proposed))
            },
            NodeCommand::Delete { session_id, key, operation_id } => {
                let allowed = match admit_write(writes_under_way) {
                    Ok(_) => self.check_delete(Some(session_id), &key, &operation_id),
                    Err(error) => Err(error),
                };
                Applied::telling(NodeAnswer::Done(allowed))
            },
            NodeCommand::DataCoreDelete { key, operation_id } => {
                let allowed = match admit_write(writes_under_way) {
                    Ok(_) => self.check_delete(None, &key, &operation_id),
                    Err(error) => Err(error),
                };
                Applied::telling(NodeAnswer::Done(allowed))
            },
            NodeCommand::GetResolved {
                session_id,
                read_scope_id,
                read_request_id,
                resolved,
                range,
                clamp_range,
                max_inline_bytes,
                cache_refill,
            } => {
                if asker.gone {
                    return self.abandon_read(read_scope_id);
                }
                let outcome = self.read_resolved(
                    session_id,
                    read_scope_id,
                    read_request_id,
                    &resolved,
                    range,
                    clamp_range,
                    max_inline_bytes,
                    cache_refill,
                    now,
                );
                Applied::telling(NodeAnswer::Read(outcome))
            },
            NodeCommand::GetCached {
                session_id,
                read_scope_id,
                read_request_id,
                key,
                node_epoch,
                range,
                clamp_range,
                max_inline_bytes,
            } => {
                if asker.gone {
                    return self.abandon_read(read_scope_id);
                }
                let found = self.get_cached(
                    session_id,
                    read_scope_id,
                    read_request_id,
                    &key,
                    node_epoch,
                    range,
                    clamp_range,
                    max_inline_bytes,
                    now,
                );
                Applied::telling(NodeAnswer::Cached(found))
            },
            NodeCommand::MaterializeResolved { session_id, read_scope_id, resolved } => {
                if asker.gone {
                    return self.abandon_read(read_scope_id);
                }
                let outcome = self.materialize_resolved(session_id, read_scope_id, &resolved);
                Applied::telling(NodeAnswer::Whole(outcome))
            },
            NodeCommand::DataCoreMaterializeInto {
                read_scope_id,
                resolved,
                range,
                clamp_range,
                output,
                cache_refill,
                prefetch_full_layout,
            } => {
                if asker.gone {
                    return self.abandon_read(read_scope_id);
                }
                let outcome = self.materialize_resolved_into_for_data_core(
                    read_scope_id,
                    &resolved,
                    range,
                    clamp_range,
                    output,
                    cache_refill,
                    prefetch_full_layout,
                    now,
                );
                Applied::telling(NodeAnswer::Into(outcome))
            },
            NodeCommand::PlanFilesystemPeerPrefetch { read_scope_id, resolved } => {
                if asker.gone {
                    return self.abandon_read(read_scope_id);
                }
                let planned = self.plan_filesystem_directory_prefetch(read_scope_id, &resolved);
                Applied::telling(NodeAnswer::Prefetch(planned))
            },
            NodeCommand::DataCoreGetCached {
                read_scope_id,
                key,
                node_epoch,
                exact_version,
                range,
                clamp_range,
                output,
            } => {
                if asker.gone {
                    return self.abandon_read(read_scope_id);
                }
                let found = self.get_cached_for_data_core(
                    read_scope_id,
                    &key,
                    node_epoch,
                    exact_version,
                    range,
                    clamp_range,
                    output,
                    now,
                );
                Applied::telling(NodeAnswer::CachedInto(found))
            },
            NodeCommand::ImportPeerBlock {
                block_id,
                bytes,
                checksum,
                length,
                read_scope_id,
                import_attempt,
            } => {
                let (installed, imported, finished) = self.install_peer_block(
                    block_id,
                    &bytes,
                    &checksum,
                    length,
                    read_scope_id,
                    import_attempt,
                );
                Applied {
                    answer: NodeAnswer::Installed(installed),
                    finished,
                    imported,
                    broadcast: None,
                }
            },
            NodeCommand::EnsurePeerBlocks { read_scope_id, requests } => {
                let (starts, work) = self.ensure_peer_blocks(read_scope_id, requests, closed);
                Applied::telling(NodeAnswer::Imports { starts, work })
            },
            NodeCommand::Download { transfer_id } => {
                let (fetched, finished) = self.download(transfer_id, now);
                Applied::finishing(NodeAnswer::Bytes(fetched), finished)
            },
            NodeCommand::PeerProbe { source_node_id, nonce } => {
                let answer = self.probe(&source_node_id, nonce);
                Applied::telling(NodeAnswer::Probe(answer))
            },
            NodeCommand::PeerPullBlock { source_node_id, block_id, range } => {
                let served = self.pull_block(&source_node_id, block_id, range);
                Applied::telling(NodeAnswer::Block(served))
            },
            NodeCommand::PrepareReplica { plan_id, block_id, bytes, checksum, length } => {
                let told = self.replicas.prepare_replica(
                    plan_id,
                    block_id,
                    bytes,
                    checksum,
                    length,
                    now,
                );
                Applied::telling(NodeAnswer::Replica(told))
            },
            NodeCommand::ActivateReplica { plan_id } => {
                let told = self.replicas.activate_replica(&mut self.arena, &plan_id);
                Applied::telling(NodeAnswer::Replica(told))
            },
            NodeCommand::AbortReplica { plan_id } => {
                let told = self.replicas.abort_replica(&plan_id);
                Applied::telling(NodeAnswer::Replica(told))
            },
            NodeCommand::DiscardReplicaAttempt { plan_id } => {
                let discarded = self.replicas.discard_replica_attempt(&mut self.arena, &plan_id);
                Applied::telling(NodeAnswer::Done(discarded))
            },
            NodeCommand::ReplicaStatus { plan_id } => {
                let told = self.replicas.replica_status(&plan_id);
                Applied::telling(NodeAnswer::Replica(told))
            },
            NodeCommand::InvalidateCurrent { key, minimum_version } => {
                let sent = self.broadcast_invalidation(&key, minimum_version, now);
                let answer = match sent.barrier_id {
                    Some(barrier_id) => self.wait_for_barrier(barrier_id, asker.waiter),
                    None => NodeAnswer::Done(Ok(())),
                };
                Applied {
                    answer,
                    finished: Vec::new(),
                    imported: Vec::new(),
                    broadcast: Some(sent),
                }
            },
            NodeCommand::InvalidateFilesystemBinding {
                inode,
                through_generation,
                minimum_inode_revision,
            } => {
                let actions = plan_revocation(inode, through_generation, minimum_inode_revision);
                Applied::telling(NodeAnswer::Names(actions))
            },
            NodeCommand::FilesystemGetBinding { .. } => Applied::telling(NodeAnswer::Remembered),
            NodeCommand::FilesystemCacheBinding { .. } => Applied::telling(NodeAnswer::Remembered),
            NodeCommand::FilesystemGetDentry { .. } => Applied::telling(NodeAnswer::Remembered),
            NodeCommand::FilesystemCacheNegativeDentry { .. } => Applied::telling(
                NodeAnswer::Remembered,
            ),
            NodeCommand::FilesystemGetDirectoryPage { .. } => Applied::telling(
                NodeAnswer::Remembered,
            ),
            NodeCommand::FilesystemCacheDirectoryPage { .. } => Applied::telling(
                NodeAnswer::Remembered,
            ),
            NodeCommand::FilesystemGetHandle { .. } => Applied::telling(NodeAnswer::Remembered),
            NodeCommand::FilesystemApplyLocalNamespaceMutation {
                changed_directories,
                changed_inodes,
                removed_dentries,
                refreshed_directories,
            } => {
                let actions = plan_local_mutation(
                    &changed_directories,
                    &changed_inodes,
                    &removed_dentries,
                    refreshed_directories,
                );
                Applied::telling(NodeAnswer::Names(actions))
            },
            NodeCommand::FilesystemInstallResolvedDentry { resolved, apply_directory_mutation } => {
                let actions = self.install_resolved_entry(&resolved, apply_directory_mutation, now);
                Applied::telling(NodeAnswer::Names(actions))
            },
            NodeCommand::FilesystemOpenHandleWithReference { inode } => {
                let begun = self.references.acquire_filesystem_inode_reference_local(
                    inode,
                    generations,
                    now,
                );
                Applied::telling(NodeAnswer::Reference(begun))
            },
            NodeCommand::FilesystemCloseHandleWithReference { inode } => {
                let released = match inode {
                    Some(inode) => Some(
                        self.references.release_filesystem_inode_reference_local(inode, 1),
                    ),
                    None => None,
                };
                Applied::telling(NodeAnswer::Closed(released))
            },
            NodeCommand::FilesystemAcquireInodeReference { inode } => {
                let begun = self.references.acquire_filesystem_inode_reference_local(
                    inode,
                    generations,
                    now,
                );
                Applied::telling(NodeAnswer::Reference(begun))
            },
            NodeCommand::FilesystemReleaseInodeReference { inode, count } => {
                let released = self.references.release_filesystem_inode_reference_local(
                    inode,
                    count,
                );
                Applied::telling(NodeAnswer::Released(released))
            },
            NodeCommand::FilesystemMarkInodeOrphan { inode } => {
                self.references.mark_filesystem_inode_orphan(inode);
                Applied::telling(NodeAnswer::Done(Ok(())))
            },
            NodeCommand::FilesystemInstallInodeReference { inode, generation, lease_millis } => {
                self.references.install_filesystem_inode_reference(
                    inode,
                    generation,
                    lease_millis,
                    now,
                );
                Applied::telling(NodeAnswer::Done(Ok(())))
            },
            NodeCommand::FilesystemInodeReferenceSnapshot => {
                let snapshot = self.references.filesystem_inode_reference_snapshot();
                Applied::telling(NodeAnswer::References(snapshot))
            },
            NodeCommand::FilesystemRenewInodeReferenceLeases { references, lease_millis } => {
                self.references.renew_filesystem_inode_reference_leases(
                    &references,
                    lease_millis,
                    now,
                );
                Applied::telling(NodeAnswer::Done(Ok(())))
            },
            NodeCommand::FilesystemHasLiveInodeReference { inode } => {
                let live = self.references.has_live_filesystem_inode_reference(inode, now);
                Applied::telling(NodeAnswer::Live(live))
            },
            NodeCommand::PrepareBlockRetirement { retirement_id, block_ids } => {
                let (reply, finished) = self.register_prepare_retirement(
                    &retirement_id,
                    &block_ids,
                    asker.waiter,
                );
                Applied::finishing(answer_phase(reply), finished)
            },
            NodeCommand::FinalizeBlockRetirement { retirement_id, block_ids } => {
                let (reply, finished) = self.register_final_retirement(
                    &retirement_id,
                    &block_ids,
                    asker.waiter,
                );
                Applied::finishing(answer_phase(reply), finished)
            },
            NodeCommand::BeginReadScope { session_id } => {
                let (begun, finished) = self.begin_read_scope_reply(session_id, asker.gone);
                Applied::finishing(NodeAnswer::Number(begun), finished)
            },
            NodeCommand::BeginDataCoreReadScope => {
                let (begun, finished) = self.begin_data_core_read_scope_reply(asker.gone);
                Applied::finishing(NodeAnswer::Number(begun), finished)
            },
            NodeCommand::FinishReadScope { scope_id } => {
                let finished = self.finish_read_scope(scope_id);
                Applied::finishing(NodeAnswer::Done(Ok(())), finished)
            },
            NodeCommand::WaitInvalidation { barrier_id } => {
                let answer = self.wait_for_barrier(barrier_id, asker.waiter);
                Applied::telling(answer)
            },
            NodeCommand::ApplyConfigChange { change } => {
                let applied = self.apply_config_change(change);
                Applied::telling(NodeAnswer::Configured(applied))
            },
        }
    }
}

/// What a phase of a retirement answers.
fn answer_phase(reply: RetirementReply) -> (answer: NodeAnswer)
    ensures
        answer is Done || answer is Later,
        phase_reply(answer) == reply,
{
    match reply {
        RetirementReply::Done => NodeAnswer::Done(Ok(())),
        RetirementReply::Failed(error) => NodeAnswer::Done(Err(error)),
        RetirementReply::Waiting => NodeAnswer::Later,
    }
}

} // verus!
