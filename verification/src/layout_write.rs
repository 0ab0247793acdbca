//! Writes that change a part of a value or of a file. None of them reads the value: a new layout is
//! laid over the old one, and only the bytes that were written become a block.
use crate::arena::HostReceipt;
#[allow(unused_imports)]
use crate::arena::ReceiptView;
use crate::bytes::{copy_bytes, same_bytes};
#[allow(unused_imports)]
use crate::bytes::{lemma_views_push, lemma_views_take, views};
use crate::digest::digest;
#[allow(unused_imports)]
use crate::digest::sha256_of;
#[allow(unused_imports)]
use crate::error::arena_fault;
use crate::error::{map_arena_error, WorkerError};
use crate::identity::{block_identity, digit, push_char};
#[allow(unused_imports)]
use crate::identity::{block_name, hex_digit};
use crate::limits::{validate_operation_id, validate_user_key};
#[allow(unused_imports)]
use crate::limits::{key_fault, operation_fault};
use crate::node::NodeState;
#[allow(unused_imports)]
use crate::node::NodeView;
use crate::node_session::Broadcast;
#[allow(unused_imports)]
use crate::node_session::receipt_for;
use crate::protocol::{
    BlockReplicaSet, DurabilityPolicy, PreparedObjectVersion, ReplicaProof, ReplicaReport,
    ResolveObjectResponse, VersionCandidate, VersionKind,
};
#[allow(unused_imports)]
use crate::protocol::{
    CandidateView, PreparedView, ProofView, ReplicaSetView, ReportView, ResolvedView,
};
#[allow(unused_imports)]
use crate::read_plan::byte_at;
use crate::value_write::SetOutcome;
use crate::version_layout::{
    digest as layout_digest, overlay, overlay_file_write, punch_hole_file, truncate_file,
    ExtentRecord,
};
#[allow(unused_imports)]
use crate::version_layout::{
    file_write_fault, layout_bytes, layout_fault, layout_valid, overlaid, overlay_fault, punch_fault, punched,
    source_at, truncated, written_length, ExtentView, Source,
};
use vstd::prelude::*;

verus! {

/// The decimal digits of a number.
pub open spec fn decimal_of(value: nat) -> Seq<char>
    decreases value,
{
    if value < 10 {
        seq![hex_digit(value as u8)]
    } else {
        decimal_of(value / 10).push(hex_digit((value % 10) as u8))
    }
}

/// Appends the decimal digits of a number.
pub fn push_decimal(text: &mut String, value: u64)
    ensures
        final(text)@ == old(text)@ + decimal_of(value as nat),
    decreases value,
{
    let ghost before = text@;
    if value >= 10 {
        push_decimal(text, value / 10);
    }
    push_char(text, digit((value % 10) as u8));
    assert(text@ =~= before + decimal_of(value as nat));
}

/// The condition under which a change of a version is published: that the version is still the
/// current one.
pub open spec fn version_condition(version: u64) -> Seq<char> {
    "if-version:"@ + decimal_of(version as nat)
}

/// The condition under which a change of a version is published.
pub fn require_version(version: u64) -> (condition: String)
    ensures
        condition@ == version_condition(version),
{
    let mut condition: String = "if-version:".to_owned();
    push_decimal(&mut condition, version);
    condition
}

/// A layout that is proposed to the metadata service.
#[derive(Debug, PartialEq, Eq)]
pub struct LayoutCommit {
    /// The session that will have the value cached.
    pub cache_session_id: Option<u64>,
    pub key: Vec<u8>,
    pub operation_id: Vec<u8>,
    pub candidate: VersionCandidate,
    pub replica_proofs: Vec<ReplicaProof>,
    pub new_replicas: Vec<ReplicaReport>,
    pub condition: String,
    pub block_id: Vec<u8>,
}

/// A layout that is proposed to the metadata service, as a value.
#[verifier::ext_equal]
pub struct LayoutCommitView {
    pub cache_session_id: Option<u64>,
    pub key: Seq<u8>,
    pub operation_id: Seq<u8>,
    pub candidate: CandidateView,
    pub replica_proofs: Seq<ProofView>,
    pub new_replicas: Seq<ReportView>,
    pub condition: Seq<char>,
    pub block_id: Seq<u8>,
}

impl View for LayoutCommit {
    type V = LayoutCommitView;

    open spec fn view(&self) -> LayoutCommitView {
        LayoutCommitView {
            cache_session_id: self.cache_session_id,
            key: self.key@,
            operation_id: self.operation_id@,
            candidate: self.candidate@,
            replica_proofs: views(self.replica_proofs@),
            new_replicas: views(self.new_replicas@),
            condition: self.condition@,
            block_id: self.block_id@,
        }
    }
}

/// A range of a value that a session wants to replace by what it staged.
#[derive(Debug, PartialEq, Eq)]
pub struct SetRangeInput {
    pub session_id: u64,
    pub key: Vec<u8>,
    pub offset: u64,
    pub staging_id: u64,
    pub receipt: HostReceipt,
    pub operation_id: Vec<u8>,
    /// The version that the range is to be replaced in, if not the current one.
    pub expected_version: Option<u64>,
}

/// A range of a value that a session wants to replace, as a value.
#[verifier::ext_equal]
pub struct RangeInputView {
    pub session_id: u64,
    pub key: Seq<u8>,
    pub offset: u64,
    pub staging_id: u64,
    pub receipt: ReceiptView,
    pub operation_id: Seq<u8>,
    pub expected_version: Option<u64>,
}

impl View for SetRangeInput {
    type V = RangeInputView;

    open spec fn view(&self) -> RangeInputView {
        RangeInputView {
            session_id: self.session_id,
            key: self.key@,
            offset: self.offset,
            staging_id: self.staging_id,
            receipt: self.receipt@,
            operation_id: self.operation_id@,
            expected_version: self.expected_version,
        }
    }
}

/// The first proof of each replica set that is kept and has one.
pub open spec fn first_proofs(
    sets: Seq<ReplicaSetView>,
    kept: spec_fn(ReplicaSetView) -> bool,
) -> Seq<ProofView>
    decreases sets.len(),
{
    if sets.len() == 0 {
        Seq::empty()
    } else {
        let earlier = first_proofs(sets.drop_last(), kept);
        if kept(sets.last()) && sets.last().proofs.len() > 0 {
            earlier.push(sets.last().proofs[0])
        } else {
            earlier
        }
    }
}

/// Which replica sets are not for a new block. Those without a name may be left out too.
pub open spec fn not_for(block_id: Seq<u8>, named_only: bool) -> spec_fn(ReplicaSetView) -> bool {
    |set: ReplicaSetView| set.block_id != block_id && (named_only ==> set.block_id.len() > 0)
}

/// Whether a layout takes bytes from a block.
pub open spec fn refers_to(extents: Seq<ExtentView>, block_id: Seq<u8>) -> bool {
    exists|i: int|
        #![trigger extents[i]]
        0 <= i < extents.len() && !extents[i].is_hole() && extents[i].block_id == block_id
}

/// Which replica sets are for blocks that a layout takes bytes from.
pub open spec fn referred_by(extents: Seq<ExtentView>) -> spec_fn(ReplicaSetView) -> bool {
    |set: ReplicaSetView| refers_to(extents, set.block_id)
}

/// A candidate for a version of a value.
pub open spec fn candidate_for(logical_length: u64, extents: Seq<ExtentView>) -> CandidateView {
    CandidateView {
        kind: VersionKind::Value,
        logical_length,
        extents,
        digest: sha256_of(layout_bytes(logical_length, extents)),
    }
}

/// A report of a block that was just made.
pub open spec fn report_of(block_id: Seq<u8>, length: u64, checksum: Seq<u8>) -> ReportView {
    ReportView { block_id, length, checksum, durability: DurabilityPolicy::LocalMemory }
}

/// Why a write cannot be prepared, whatever it writes.
pub open spec fn request_fault(key: Seq<u8>, operation_id: Seq<u8>) -> Option<WorkerError> {
    if key_fault(key) is Some {
        key_fault(key)
    } else {
        operation_fault(operation_id)
    }
}

/// Why a range does not lie inside a value.
pub open spec fn range_fault(offset: u64, length: u64, logical_length: u64) -> Option<WorkerError> {
    if offset + length > u64::MAX {
        Some(WorkerError::InvalidArgument("range write overflows u64"))
    } else if offset + length > logical_length {
        Some(WorkerError::InvalidArgument("range write extends beyond current value"))
    } else {
        None
    }
}

impl NodeView {
    /// A session's proposal to replace a range of a value by what it staged, and the state in
    /// which its block is pending; or why there is none.
    pub open spec fn range_proposed(self, input: RangeInputView, resolved: ResolvedView) -> Result<
        (NodeView, LayoutCommitView),
        WorkerError,
    > {
        let block_id = block_name(self.node_id, input.operation_id);
        let length = input.receipt.length;
        let counted = receipt_for(self.sessions.sessions[input.session_id], input.receipt);
        if request_fault(input.key, input.operation_id) is Some {
            Err(request_fault(input.key, input.operation_id)->0)
        } else if !self.sessions.live(input.session_id) {
            Err(WorkerError::UnknownSession)
        } else if !self.has_metadata {
            Err(WorkerError::MetadataUnavailable)
        } else if resolved.layout is None {
            Err(WorkerError::NotFound)
        } else {
            let base = resolved.layout->0;
            let overlay_error = overlay_fault(
                base.extents,
                base.logical_length,
                input.offset,
                length,
                block_id,
            );
            if range_fault(input.offset, length, base.logical_length) is Some {
                Err(range_fault(input.offset, length, base.logical_length)->0)
            } else if self.preparation_fault(block_id) is Some {
                Err(self.preparation_fault(block_id)->0)
            } else if overlay_error is Some {
                Err(overlay_error->0)
            } else {
                match self.arena.sealed(input.session_id, input.staging_id, counted, block_id) {
                    Err(error) => Err(arena_fault(error)),
                    Ok(arena) => Ok(
                        (
                            self.with_pending(block_id, arena),
                            LayoutCommitView {
                                cache_session_id: Some(input.session_id),
                                key: input.key,
                                operation_id: input.operation_id,
                                candidate: candidate_for(
                                    base.logical_length,
                                    overlaid(
                                        base.extents,
                                        base.logical_length,
                                        input.offset,
                                        length,
                                        block_id,
                                        input.receipt.digest,
                                    ),
                                ),
                                replica_proofs: first_proofs(
                                    resolved.block_replicas,
                                    not_for(block_id, true),
                                ),
                                new_replicas: seq![
                                    report_of(block_id, length, input.receipt.digest),
                                ],
                                condition: version_condition(base.version),
                                block_id,
                            },
                        ),
                    ),
                }
            }
        }
    }

    /// The node's own proposal to replace a range of a value.
    pub open spec fn own_range_proposed(
        self,
        key: Seq<u8>,
        offset: u64,
        bytes: Seq<u8>,
        operation_id: Seq<u8>,
        resolved: ResolvedView,
    ) -> Result<(NodeView, LayoutCommitView), WorkerError> {
        let block_id = block_name(self.node_id, operation_id);
        let length = bytes.len() as u64;
        if request_fault(key, operation_id) is Some {
            Err(request_fault(key, operation_id)->0)
        } else if !self.has_metadata {
            Err(WorkerError::MetadataUnavailable)
        } else if resolved.layout is None {
            Err(WorkerError::NotFound)
        } else {
            let base = resolved.layout->0;
            let overlay_error = overlay_fault(
                base.extents,
                base.logical_length,
                offset,
                length,
                block_id,
            );
            if range_fault(offset, length, base.logical_length) is Some {
                Err(range_fault(offset, length, base.logical_length)->0)
            } else if self.preparation_fault(block_id) is Some {
                Err(self.preparation_fault(block_id)->0)
            } else if overlay_error is Some {
                Err(overlay_error->0)
            } else {
                match self.arena.stored(block_id, bytes, sha256_of(bytes)) {
                    Err(error) => Err(arena_fault(error)),
                    Ok(arena) => Ok(
                        (
                            self.with_pending(block_id, arena),
                            LayoutCommitView {
                                cache_session_id: None,
                                key,
                                operation_id,
                                candidate: candidate_for(
                                    base.logical_length,
                                    overlaid(
                                        base.extents,
                                        base.logical_length,
                                        offset,
                                        length,
                                        block_id,
                                        sha256_of(bytes),
                                    ),
                                ),
                                replica_proofs: first_proofs(
                                    resolved.block_replicas,
                                    not_for(block_id, false),
                                ),
                                new_replicas: seq![report_of(block_id, length, sha256_of(bytes))],
                                condition: version_condition(base.version),
                                block_id,
                            },
                        ),
                    ),
                }
            }
        }
    }

    /// The preparation of a write to a file, which may reach beyond the file's end, and the state
    /// in which its block is pending; or why there is none.
    pub open spec fn file_write_prepared(
        self,
        key: Seq<u8>,
        offset: u64,
        bytes: Seq<u8>,
        operation_id: Seq<u8>,
        resolved: ResolvedView,
    ) -> Result<(NodeView, PreparedView), WorkerError> {
        let block_id = block_name(self.node_id, operation_id);
        let length = bytes.len() as u64;
        if request_fault(key, operation_id) is Some {
            Err(request_fault(key, operation_id)->0)
        } else if !self.has_metadata {
            Err(WorkerError::MetadataUnavailable)
        } else if resolved.layout is None {
            Err(WorkerError::NotFound)
        } else {
            let base = resolved.layout->0;
            let fault = file_write_fault(
                base.extents,
                base.logical_length,
                offset,
                length,
                block_id,
            );
            if offset + length > u64::MAX {
                Err(WorkerError::InvalidArgument("range write overflows u64"))
            } else if fault is Some {
                Err(fault->0)
            } else if self.preparation_fault(block_id) is Some {
                Err(self.preparation_fault(block_id)->0)
            } else {
                match self.arena.stored(block_id, bytes, sha256_of(bytes)) {
                    Err(error) => Err(arena_fault(error)),
                    Ok(arena) => Ok(
                        (
                            self.with_pending(block_id, arena),
                            PreparedView {
                                object_key: key,
                                expected_object_version: Some(base.version),
                                candidate: candidate_for(
                                    written_length(base.logical_length, offset, length),
                                    overlaid(
                                        base.extents,
                                        base.logical_length,
                                        offset,
                                        length,
                                        block_id,
                                        sha256_of(bytes),
                                    ),
                                ),
                                replica_proofs: first_proofs(
                                    resolved.block_replicas,
                                    not_for(block_id, false),
                                ),
                                new_replicas: seq![report_of(block_id, length, sha256_of(bytes))],
                            },
                        ),
                    ),
                }
            }
        }
    }

    /// The preparation of a file that is a hole but for some bytes, and the state in which their
    /// block is pending; or why there is none.
    pub open spec fn sparse_prepared(
        self,
        key: Seq<u8>,
        logical_length: u64,
        offset: u64,
        bytes: Seq<u8>,
        operation_id: Seq<u8>,
        expected_version: Option<u64>,
    ) -> Result<(NodeView, PreparedView), WorkerError> {
        let block_id = block_name(self.node_id, operation_id);
        let length = bytes.len() as u64;
        if request_fault(key, operation_id) is Some {
            Err(request_fault(key, operation_id)->0)
        } else if !self.has_metadata {
            Err(WorkerError::MetadataUnavailable)
        } else if offset + length > u64::MAX {
            Err(WorkerError::InvalidArgument("sparse write overflows u64"))
        } else if offset + length > logical_length {
            Err(WorkerError::InvalidArgument("sparse write extends beyond declared file length"))
        } else if length == 0 {
            Ok(
                (
                    self,
                    PreparedView {
                        object_key: key,
                        expected_object_version: expected_version,
                        candidate: candidate_for(
                            logical_length,
                            truncated(Seq::empty(), 0, logical_length),
                        ),
                        replica_proofs: Seq::empty(),
                        new_replicas: Seq::empty(),
                    },
                ),
            )
        } else if self.preparation_fault(block_id) is Some {
            Err(self.preparation_fault(block_id)->0)
        } else {
            match self.arena.stored(block_id, bytes, sha256_of(bytes)) {
                Err(error) => Err(arena_fault(error)),
                Ok(arena) => Ok(
                    (
                        self.with_pending(block_id, arena),
                        PreparedView {
                            object_key: key,
                            expected_object_version: expected_version,
                            candidate: candidate_for(
                                logical_length,
                                truncated(
                                    overlaid(
                                        Seq::empty(),
                                        0,
                                        offset,
                                        length,
                                        block_id,
                                        sha256_of(bytes),
                                    ),
                                    (offset + length) as u64,
                                    logical_length,
                                ),
                            ),
                            replica_proofs: Seq::empty(),
                            new_replicas: seq![report_of(block_id, length, sha256_of(bytes))],
                        },
                    ),
                ),
            }
        }
    }

    /// Why a change of a file that brings no bytes cannot be prepared, whatever it changes.
    pub open spec fn relayout_fault(
        self,
        key: Seq<u8>,
        operation_id: Seq<u8>,
        resolved: ResolvedView,
    ) -> Option<WorkerError> {
        if request_fault(key, operation_id) is Some {
            request_fault(key, operation_id)
        } else if !self.has_metadata {
            Some(WorkerError::MetadataUnavailable)
        } else if resolved.layout is None {
            Some(WorkerError::NotFound)
        } else {
            None
        }
    }

    /// The preparation of a file with a new layout over the blocks that it has.
    pub open spec fn relayout(
        self,
        key: Seq<u8>,
        resolved: ResolvedView,
        logical_length: u64,
        extents: Seq<ExtentView>,
    ) -> PreparedView {
        PreparedView {
            object_key: key,
            expected_object_version: Some(resolved.layout->0.version),
            candidate: candidate_for(logical_length, extents),
            replica_proofs: first_proofs(resolved.block_replicas, referred_by(extents)),
            new_replicas: Seq::empty(),
        }
    }

    /// The preparation of a file with a new length, or why there is none.
    pub open spec fn truncate_prepared(
        self,
        key: Seq<u8>,
        new_length: u64,
        operation_id: Seq<u8>,
        resolved: ResolvedView,
    ) -> Result<PreparedView, WorkerError> {
        if self.relayout_fault(key, operation_id, resolved) is Some {
            Err(self.relayout_fault(key, operation_id, resolved)->0)
        } else {
            let base = resolved.layout->0;
            if layout_fault(base.logical_length, base.extents) is Some {
                Err(layout_fault(base.logical_length, base.extents)->0)
            } else {
                Ok(
                    self.relayout(
                        key,
                        resolved,
                        new_length,
                        truncated(base.extents, base.logical_length, new_length),
                    ),
                )
            }
        }
    }

    /// The preparation of a file with a hole, or why there is none.
    pub open spec fn punch_prepared(
        self,
        key: Seq<u8>,
        offset: u64,
        length: u64,
        operation_id: Seq<u8>,
        resolved: ResolvedView,
    ) -> Result<PreparedView, WorkerError> {
        if self.relayout_fault(key, operation_id, resolved) is Some {
            Err(self.relayout_fault(key, operation_id, resolved)->0)
        } else {
            let base = resolved.layout->0;
            if punch_fault(base.extents, base.logical_length, offset, length) is Some {
                Err(punch_fault(base.extents, base.logical_length, offset, length)->0)
            } else {
                Ok(
                    self.relayout(
                        key,
                        resolved,
                        base.logical_length,
                        punched(base.extents, base.logical_length, offset, length),
                    ),
                )
            }
        }
    }

    /// The state after the blocks of a preparation were published, or were not.
    pub open spec fn preparations_ended(
        self,
        reports: Seq<ReportView>,
        version: Option<u64>,
        rejected: bool,
    ) -> NodeView
        decreases reports.len(),
    {
        if reports.len() == 0 {
            self
        } else {
            let earlier = self.preparations_ended(reports.drop_last(), version, rejected);
            let ended = earlier.preparation_ended(reports.last().block_id, rejected);
            match version {
                Some(version) => NodeView {
                    arena: ended.arena.committed(reports.last().block_id, version),
                    ..ended
                },
                None => ended,
            }
        }
    }

    /// The state at the end of a write of a range, after the clients were told of it, and what
    /// came of the write.
    pub open spec fn layout_settled(
        self,
        commit: LayoutCommitView,
        version: u64,
        barrier_id: Option<u64>,
        failed: Seq<u64>,
    ) -> (NodeView, Result<SetOutcome, WorkerError>) {
        let told = self.undelivered(failed);
        match told.interest_noted(commit.cache_session_id, commit.key) {
            Err(error) => (told, Err(error)),
            Ok(next) => (
                next,
                Ok(SetOutcome { version, length: commit.candidate.logical_length, barrier_id }),
            ),
        }
    }
}

/// After a write to a file, the bytes that were written read back, what lies between the old end and
/// them reads as zeros, and every other byte whose block is here reads as before. Where the
/// operation was carried out before, its block holds these bytes already.
pub proof fn a_file_write_reads_back_and_keeps_the_rest(
    node: NodeView,
    key: Seq<u8>,
    offset: u64,
    bytes: Seq<u8>,
    operation_id: Seq<u8>,
    resolved: ResolvedView,
    position: int,
)
    requires
        node.wf(),
        node.file_write_prepared(key, offset, bytes, operation_id, resolved) is Ok,
        node.arena.blocks.contains_key(block_name(node.node_id, operation_id))
            ==> node.arena.block_bytes(block_name(node.node_id, operation_id)) == bytes,
        source_at(resolved.layout->0.extents, position) matches Some(
            Source::Block { block_id, .. },
        ) ==> node.arena.blocks.contains_key(block_id),
    ensures
        ({
            let (next, prepared) = node.file_write_prepared(
                key,
                offset,
                bytes,
                operation_id,
                resolved,
            )->Ok_0;
            let base = resolved.layout->0;
            byte_at(next.arena, prepared.candidate.extents, position) == if offset <= position
                < offset + bytes.len() {
                bytes[position - offset]
            } else if base.logical_length <= position {
                0
            } else {
                byte_at(node.arena, base.extents, position)
            }
        }),
{
    let (next, prepared) = node.file_write_prepared(
        key,
        offset,
        bytes,
        operation_id,
        resolved,
    )->Ok_0;
    let base = resolved.layout->0;
    let block_id = block_name(node.node_id, operation_id);
    crate::version_layout::a_write_replaces_its_range_and_nothing_else(
        base.extents,
        base.logical_length,
        offset,
        bytes.len() as u64,
        block_id,
        sha256_of(bytes),
    );
    crate::version_layout::a_valid_layout_covers_its_length(
        base.logical_length,
        base.extents,
        position,
    );
    assert(next.arena.block_bytes(block_id) == bytes);
    match source_at(base.extents, position) {
        Some(Source::Block { block_id: source, .. }) => {
            assert(node.arena.block_wf(source));
            assert(next.arena.block_bytes(source) == node.arena.block_bytes(source));
        },
        _ => {},
    }
}

/// Once a preparation has ended, none of its blocks is under way, and every block under way that is not
/// its own still is. Its blocks stay where it was published or may have been, and a block goes only
/// where the preparation made it and was certainly refused.
pub proof fn an_ended_preparation_leaves_nothing_under_way(
    node: NodeView,
    reports: Seq<ReportView>,
    version: Option<u64>,
    rejected: bool,
    block_id: Seq<u8>,
)
    ensures
        ({
            let next = node.preparations_ended(reports, version, rejected);
            let own = exists|i: int|
                #![trigger reports[i]]
                0 <= i < reports.len() && reports[i].block_id == block_id;
            &&& next.pending_blocks.contains_key(block_id) <==> node.pending_blocks.contains_key(
                block_id,
            ) && !own
            &&& next.pending_blocks.contains_key(block_id) ==> next.pending_blocks[block_id]
                == node.pending_blocks[block_id]
            &&& node.arena.blocks.contains_key(block_id) ==> (next.arena.blocks.contains_key(
                block_id,
            ) <==> !(own && rejected && node.pending_blocks.contains_key(block_id)
                && node.pending_blocks[block_id]))
            &&& own && version is Some && next.arena.blocks.contains_key(block_id)
                ==> next.arena.blocks[block_id].version == version
            &&& next.arena.blocks.contains_key(block_id) ==> node.arena.blocks.contains_key(
                block_id,
            ) && next.arena.blocks[block_id].allocation_id
                == node.arena.blocks[block_id].allocation_id
            &&& next.sessions == node.sessions
            &&& next.cache == node.cache
        }),
    decreases reports.len(),
{
    if reports.len() > 0 {
        let rest = reports.drop_last();
        an_ended_preparation_leaves_nothing_under_way(node, rest, version, rejected, block_id);
        assert(reports[reports.len() - 1] == reports.last());
        let before = exists|i: int|
            #![trigger rest[i]]
            0 <= i < rest.len() && rest[i].block_id == block_id;
        let own = exists|i: int|
            #![trigger reports[i]]
            0 <= i < reports.len() && reports[i].block_id == block_id;
        assert(own <==> before || reports.last().block_id == block_id) by {
            if before {
                let i = choose|i: int|
                    #![trigger rest[i]]
                    0 <= i < rest.len() && rest[i].block_id == block_id;
                assert(reports[i] == rest[i]);
            }
            if own && reports.last().block_id != block_id {
                let i = choose|i: int|
                    #![trigger reports[i]]
                    0 <= i < reports.len() && reports[i].block_id == block_id;
                assert(rest[i] == reports[i]);
            }
        }
    }
}

/// A range of a value may be replaced by what a session staged if and only if the key and the operation
/// have proper names, the session can be used, there is a metadata service and a value, the range is not
/// empty and lies inside the value, the value's layout is valid, the operation is not under way, and
/// what was staged is complete, is the session's and is what its receipt says. The node's own write
/// needs room for its block instead. What is refused is refused for the first reason that holds.
pub proof fn a_proper_range_write_may_be_proposed(
    node: NodeView,
    input: RangeInputView,
    key: Seq<u8>,
    offset: u64,
    bytes: Seq<u8>,
    operation_id: Seq<u8>,
    resolved: ResolvedView,
)
    requires
        block_name(node.node_id, input.operation_id).len() > 0,
        block_name(node.node_id, operation_id).len() > 0,
        bytes.len() <= u64::MAX,
    ensures
        ({
            let outcome = node.range_proposed(input, resolved);
            let block_id = block_name(node.node_id, input.operation_id);
            let staging = node.arena.stagings[input.staging_id];
            let length = input.receipt.length;
            let base = resolved.layout->0;
            let named = 1 <= input.key.len() <= 1024 && input.operation_id.len() == 24;
            let usable = node.sessions.sessions.contains_key(input.session_id)
                && !node.sessions.sessions[input.session_id].disconnected;
            let inside = input.offset + length <= base.logical_length;
            let idle = !node.pending_blocks.contains_key(block_id);
            &&& outcome is Ok <==> {
                &&& named
                &&& usable
                &&& node.has_metadata
                &&& resolved.layout is Some
                &&& length > 0
                &&& inside
                &&& layout_valid(base.logical_length, base.extents)
                &&& idle
                &&& node.arena.stagings.contains_key(input.staging_id)
                &&& staging.session_id == input.session_id
                &&& staging.payload is Some
                &&& length == staging.length
                &&& input.receipt.digest == staging.digest
                &&& node.arena.blocks.contains_key(block_id) ==> node.arena.blocks[block_id].length
                    == staging.length && node.arena.blocks[block_id].digest == staging.digest
            }
            &&& !named ==> outcome is Err && outcome->Err_0 is InvalidArgument
            &&& named && !usable ==> outcome is Err
                && outcome->Err_0 == WorkerError::UnknownSession
            &&& named && usable && !node.has_metadata ==> outcome is Err
                && outcome->Err_0 == WorkerError::MetadataUnavailable
            &&& named && usable && node.has_metadata && resolved.layout is None ==> outcome is Err
                && outcome->Err_0 == WorkerError::NotFound
            &&& named && usable && node.has_metadata && resolved.layout is Some && !inside ==> outcome is Err
                && outcome->Err_0 is InvalidArgument
            &&& named && usable && node.has_metadata && resolved.layout is Some && inside && !idle
                ==> outcome is Err
                && outcome->Err_0 == WorkerError::WorkerUnavailable
        }),
        ({
            let outcome = node.own_range_proposed(key, offset, bytes, operation_id, resolved);
            let block_id = block_name(node.node_id, operation_id);
            let base = resolved.layout->0;
            let named = 1 <= key.len() <= 1024 && operation_id.len() == 24;
            let inside = offset + bytes.len() <= base.logical_length;
            let idle = !node.pending_blocks.contains_key(block_id);
            &&& outcome is Ok <==> {
                &&& named
                &&& node.has_metadata
                &&& resolved.layout is Some
                &&& bytes.len() > 0
                &&& inside
                &&& layout_valid(base.logical_length, base.extents)
                &&& idle
                &&& node.arena.stored(block_id, bytes, sha256_of(bytes)) is Ok
            }
            &&& named && !node.has_metadata ==> outcome is Err
                && outcome->Err_0 == WorkerError::MetadataUnavailable
            &&& named && node.has_metadata && resolved.layout is None ==> outcome is Err
                && outcome->Err_0 == WorkerError::NotFound
            &&& named && node.has_metadata && resolved.layout is Some && inside && !idle
                ==> outcome is Err
                && outcome->Err_0 == WorkerError::WorkerUnavailable
        }),
{
}

/// A file may be written at any place that a file can reach, and a sparse file anywhere inside its
/// declared length, if the key and the operation have proper names, there is a metadata service, the
/// operation is not under way and there is room for its block. A file may get any length, and a hole
/// anywhere that is not empty. Nothing else is asked of it but that the file is there with a valid
/// layout.
pub proof fn a_proper_file_change_may_be_prepared(
    node: NodeView,
    key: Seq<u8>,
    logical_length: u64,
    offset: u64,
    length: u64,
    bytes: Seq<u8>,
    operation_id: Seq<u8>,
    expected_version: Option<u64>,
    resolved: ResolvedView,
)
    requires
        block_name(node.node_id, operation_id).len() > 0,
        bytes.len() <= u64::MAX,
    ensures
        ({
            let block_id = block_name(node.node_id, operation_id);
            let base = resolved.layout->0;
            let named = 1 <= key.len() <= 1024 && operation_id.len() == 24;
            let known = resolved.layout is Some && layout_valid(base.logical_length, base.extents);
            let storable = !node.pending_blocks.contains_key(block_id) && node.arena.stored(
                block_id,
                bytes,
                sha256_of(bytes),
            ) is Ok;
            let written = node.file_write_prepared(key, offset, bytes, operation_id, resolved);
            let sparse = node.sparse_prepared(
                key,
                logical_length,
                offset,
                bytes,
                operation_id,
                expected_version,
            );
            let cut = node.truncate_prepared(key, logical_length, operation_id, resolved);
            let hollow = node.punch_prepared(key, offset, length, operation_id, resolved);
            &&& written is Ok <==> named && node.has_metadata && known && bytes.len() > 0 && offset
                + bytes.len() <= u64::MAX && storable
            &&& sparse is Ok <==> named && node.has_metadata && offset + bytes.len()
                <= logical_length && (bytes.len() == 0 || storable)
            &&& cut is Ok <==> named && node.has_metadata && known
            &&& hollow is Ok <==> named && node.has_metadata && known && length > 0 && offset
                + length <= u64::MAX
            &&& named && !node.has_metadata ==> written is Err && written->Err_0
                == WorkerError::MetadataUnavailable
            &&& named && !node.has_metadata ==> sparse is Err && sparse->Err_0
                == WorkerError::MetadataUnavailable
            &&& named && !node.has_metadata ==> cut is Err && cut->Err_0
                == WorkerError::MetadataUnavailable
            &&& named && !node.has_metadata ==> hollow is Err && hollow->Err_0
                == WorkerError::MetadataUnavailable
            &&& named && node.has_metadata && resolved.layout is None ==> written is Err && written->Err_0
                == WorkerError::NotFound
            &&& named && node.has_metadata && resolved.layout is None ==> cut is Err && cut->Err_0
                == WorkerError::NotFound
            &&& named && node.has_metadata && resolved.layout is None ==> hollow is Err && hollow->Err_0
                == WorkerError::NotFound
        }),
{
}

/// After a write a file is as long as it was, or as long as the write reaches if that is longer, and
/// its extents cover exactly that. The preparation is for the file that was named, in the version
/// that it was made from, and brings along the one block that was written, with its length and its
/// checksum.
pub proof fn a_file_write_never_shortens_the_file(
    node: NodeView,
    key: Seq<u8>,
    offset: u64,
    bytes: Seq<u8>,
    operation_id: Seq<u8>,
    resolved: ResolvedView,
)
    requires
        bytes.len() <= u64::MAX,
        node.file_write_prepared(key, offset, bytes, operation_id, resolved) is Ok,
    ensures
        ({
            let (next, prepared) = node.file_write_prepared(
                key,
                offset,
                bytes,
                operation_id,
                resolved,
            )->Ok_0;
            let base = resolved.layout->0;
            &&& bytes.len() > 0
            &&& resolved.layout is Some
            &&& layout_valid(base.logical_length, base.extents)
            &&& prepared.candidate.logical_length == if offset + bytes.len()
                > base.logical_length {
                offset + bytes.len()
            } else {
                base.logical_length as int
            }
            &&& layout_valid(prepared.candidate.logical_length, prepared.candidate.extents)
            &&& prepared.candidate.digest == sha256_of(
                layout_bytes(prepared.candidate.logical_length, prepared.candidate.extents),
            )
            &&& prepared.object_key == key
            &&& prepared.expected_object_version == Some(base.version)
            &&& prepared.new_replicas.len() == 1
            &&& prepared.new_replicas[0].length == bytes.len()
            &&& prepared.new_replicas[0].checksum == sha256_of(bytes)
            &&& prepared.new_replicas[0].durability == DurabilityPolicy::LocalMemory
            &&& next.arena.blocks.contains_key(prepared.new_replicas[0].block_id)
            &&& forall|position: int|
                offset <= position < offset + bytes.len() ==> #[trigger] source_at(
                    prepared.candidate.extents,
                    position,
                ) == Some(
                    (Source::Block {
                        block_id: prepared.new_replicas[0].block_id,
                        offset: position - offset,
                        digest: sha256_of(bytes),
                    }),
                )
            &&& next.sessions == node.sessions
            &&& next.cache == node.cache
        }),
{
    let base = resolved.layout->0;
    let block_id = block_name(node.node_id, operation_id);
    crate::version_layout::a_write_replaces_its_range_and_nothing_else(
        base.extents,
        base.logical_length,
        offset,
        bytes.len() as u64,
        block_id,
        sha256_of(bytes),
    );
}

/// A write of a range is proposed for the value that was named, in the version that it was made
/// from, under the name of its operation, and leaves the value as long as it was. The range lies
/// inside the value.
pub proof fn a_range_write_is_proposed_as_it_was_asked_for(
    node: NodeView,
    input: RangeInputView,
    resolved: ResolvedView,
)
    requires
        node.range_proposed(input, resolved) is Ok,
    ensures
        ({
            let (next, commit) = node.range_proposed(input, resolved)->Ok_0;
            let base = resolved.layout->0;
            &&& resolved.layout is Some
            &&& 0 < input.receipt.length
            &&& input.offset + input.receipt.length <= base.logical_length
            &&& commit.key == input.key
            &&& commit.operation_id == input.operation_id
            &&& commit.cache_session_id == Some(input.session_id)
            &&& commit.condition == "if-version:"@ + decimal_of(base.version as nat)
            &&& commit.candidate.logical_length == base.logical_length
            &&& layout_valid(commit.candidate.logical_length, commit.candidate.extents)
            &&& commit.candidate.digest == sha256_of(
                layout_bytes(commit.candidate.logical_length, commit.candidate.extents),
            )
            &&& commit.new_replicas.len() == 1
            &&& commit.new_replicas[0].block_id == commit.block_id
            &&& commit.new_replicas[0].length == input.receipt.length
            &&& commit.new_replicas[0].checksum == input.receipt.digest
            &&& next.arena.blocks.contains_key(commit.block_id)
            &&& next.sessions == node.sessions
            &&& next.cache == node.cache
        }),
{
    let base = resolved.layout->0;
    crate::version_layout::a_write_replaces_its_range_and_nothing_else(
        base.extents,
        base.logical_length,
        input.offset,
        input.receipt.length,
        block_name(node.node_id, input.operation_id),
        input.receipt.digest,
    );
}

/// A range that the node itself writes is proposed for the value that was named, in the version
/// that it was made from, under the name of its operation and for no session, and leaves the value
/// as long as it was. The range lies inside the value.
pub proof fn an_own_range_write_is_proposed_as_it_was_asked_for(
    node: NodeView,
    key: Seq<u8>,
    offset: u64,
    bytes: Seq<u8>,
    operation_id: Seq<u8>,
    resolved: ResolvedView,
)
    requires
        bytes.len() <= u64::MAX,
        node.own_range_proposed(key, offset, bytes, operation_id, resolved) is Ok,
    ensures
        ({
            let (next, commit) = node.own_range_proposed(
                key,
                offset,
                bytes,
                operation_id,
                resolved,
            )->Ok_0;
            let base = resolved.layout->0;
            &&& resolved.layout is Some
            &&& 0 < bytes.len()
            &&& offset + bytes.len() <= base.logical_length
            &&& commit.key == key
            &&& commit.operation_id == operation_id
            &&& commit.cache_session_id is None
            &&& commit.condition == "if-version:"@ + decimal_of(base.version as nat)
            &&& commit.candidate.logical_length == base.logical_length
            &&& layout_valid(commit.candidate.logical_length, commit.candidate.extents)
            &&& commit.candidate.digest == sha256_of(
                layout_bytes(commit.candidate.logical_length, commit.candidate.extents),
            )
            &&& commit.new_replicas.len() == 1
            &&& commit.new_replicas[0].block_id == commit.block_id
            &&& commit.new_replicas[0].length == bytes.len()
            &&& commit.new_replicas[0].checksum == sha256_of(bytes)
            &&& next.arena.blocks.contains_key(commit.block_id)
            &&& next.sessions == node.sessions
            &&& next.cache == node.cache
        }),
{
    let base = resolved.layout->0;
    crate::version_layout::a_write_replaces_its_range_and_nothing_else(
        base.extents,
        base.logical_length,
        offset,
        bytes.len() as u64,
        block_name(node.node_id, operation_id),
        sha256_of(bytes),
    );
}

/// A sparse file is as long as it was declared, for the file that was named and the version that
/// was expected. The bytes lie inside it. Without bytes there is no block and nothing changes.
pub proof fn a_sparse_file_is_as_long_as_it_was_declared(
    node: NodeView,
    key: Seq<u8>,
    logical_length: u64,
    offset: u64,
    bytes: Seq<u8>,
    operation_id: Seq<u8>,
    expected_version: Option<u64>,
)
    requires
        bytes.len() <= u64::MAX,
        node.sparse_prepared(
            key,
            logical_length,
            offset,
            bytes,
            operation_id,
            expected_version,
        ) is Ok,
        block_name(node.node_id, operation_id).len() > 0,
    ensures
        ({
            let (next, prepared) = node.sparse_prepared(
                key,
                logical_length,
                offset,
                bytes,
                operation_id,
                expected_version,
            )->Ok_0;
            &&& offset + bytes.len() <= logical_length
            &&& prepared.object_key == key
            &&& prepared.expected_object_version == expected_version
            &&& prepared.candidate.logical_length == logical_length
            &&& layout_valid(logical_length, prepared.candidate.extents)
            &&& prepared.candidate.digest == sha256_of(
                layout_bytes(prepared.candidate.logical_length, prepared.candidate.extents),
            )
            &&& prepared.replica_proofs.len() == 0
            &&& bytes.len() == 0 ==> next == node && prepared.new_replicas.len() == 0
            &&& bytes.len() > 0 ==> {
                &&& prepared.new_replicas.len() == 1
                &&& prepared.new_replicas[0].length == bytes.len()
                &&& prepared.new_replicas[0].checksum == sha256_of(bytes)
                &&& next.arena.blocks.contains_key(prepared.new_replicas[0].block_id)
            }
            &&& next.sessions == node.sessions
            &&& next.cache == node.cache
        }),
{
    let (next, prepared) = node.sparse_prepared(
        key,
        logical_length,
        offset,
        bytes,
        operation_id,
        expected_version,
    )->Ok_0;
    let length = bytes.len() as u64;
    let block_id = block_name(node.node_id, operation_id);
    let extents = if length == 0 {
        truncated(Seq::empty(), 0, logical_length)
    } else {
        truncated(
            overlaid(Seq::empty(), 0, offset, length, block_id, sha256_of(bytes)),
            (offset + length) as u64,
            logical_length,
        )
    };
    assert(prepared.candidate == candidate_for(logical_length, extents));
    assert(layout_valid(logical_length, extents)) by {
        lemma_sparse_valid(logical_length, offset, length, block_id, sha256_of(bytes));
    }
    if length > 0 {
        assert(prepared.new_replicas == seq![report_of(block_id, length, sha256_of(bytes))]);
    }
}

proof fn lemma_sparse_valid(
    logical_length: u64,
    offset: u64,
    length: u64,
    block_id: Seq<u8>,
    digest: Seq<u8>,
)
    requires
        offset + length <= logical_length,
        block_id.len() > 0,
    ensures
        length == 0 ==> layout_valid(logical_length, truncated(Seq::empty(), 0, logical_length)),
        length > 0 ==> layout_valid(
            logical_length,
            truncated(
                overlaid(Seq::empty(), 0, offset, length, block_id, digest),
                (offset + length) as u64,
                logical_length,
            ),
        ),
{
    let none = Seq::<ExtentView>::empty();
    assert(layout_valid(0, none));
    if length == 0 {
        crate::version_layout::truncation_keeps_the_prefix_and_grows_with_zeros(
            none,
            0,
            logical_length,
        );
    } else {
        crate::version_layout::a_write_replaces_its_range_and_nothing_else(
            none,
            0,
            offset,
            length,
            block_id,
            digest,
        );
        crate::version_layout::truncation_keeps_the_prefix_and_grows_with_zeros(
            overlaid(none, 0, offset, length, block_id, digest),
            (offset + length) as u64,
            logical_length,
        );
    }
}

/// A file whose length is set has that length. What it had before the new end reads as before, and
/// what it gained reads as zeros. The preparation is for the file that was named, in the version
/// that it was made from, and brings no block along. It succeeds for every proper request on a file
/// that is there.
pub proof fn a_file_gets_the_length_that_was_set(
    node: NodeView,
    key: Seq<u8>,
    new_length: u64,
    operation_id: Seq<u8>,
    resolved: ResolvedView,
    position: int,
)
    ensures
        node.truncate_prepared(key, new_length, operation_id, resolved) is Ok <==> key_fault(
            key,
        ) is None && operation_fault(operation_id) is None && node.has_metadata
            && resolved.layout is Some && layout_valid(
            resolved.layout->0.logical_length,
            resolved.layout->0.extents,
        ),
        node.truncate_prepared(key, new_length, operation_id, resolved) matches Ok(prepared) ==> {
            let base = resolved.layout->0;
            &&& prepared.object_key == key
            &&& prepared.expected_object_version == Some(base.version)
            &&& prepared.candidate.logical_length == new_length
            &&& layout_valid(new_length, prepared.candidate.extents)
            &&& prepared.candidate.digest == sha256_of(
                layout_bytes(new_length, prepared.candidate.extents),
            )
            &&& prepared.new_replicas.len() == 0
            &&& 0 <= position < new_length ==> byte_at(
                node.arena,
                prepared.candidate.extents,
                position,
            ) == if position < base.logical_length {
                byte_at(node.arena, base.extents, position)
            } else {
                0
            }
        },
{
    let base = resolved.layout->0;
    if node.truncate_prepared(key, new_length, operation_id, resolved) is Ok {
        crate::version_layout::truncation_keeps_the_prefix_and_grows_with_zeros(
            base.extents,
            base.logical_length,
            new_length,
        );
    }
}

/// A punched file is as long as before. It reads as zeros in the range that was punched and as
/// before everywhere else. The preparation is for the file that was named, in the version that it
/// was made from, and brings no block along. It succeeds for every proper range of a file that is
/// there.
pub proof fn a_file_is_punched_where_it_was_asked_for(
    node: NodeView,
    key: Seq<u8>,
    offset: u64,
    length: u64,
    operation_id: Seq<u8>,
    resolved: ResolvedView,
    position: int,
)
    ensures
        node.punch_prepared(key, offset, length, operation_id, resolved) is Ok <==> key_fault(
            key,
        ) is None && operation_fault(operation_id) is None && node.has_metadata
            && resolved.layout is Some && layout_valid(
            resolved.layout->0.logical_length,
            resolved.layout->0.extents,
        ) && length > 0 && offset + length <= u64::MAX,
        node.punch_prepared(key, offset, length, operation_id, resolved) matches Ok(prepared)
            ==> {
            let base = resolved.layout->0;
            &&& prepared.object_key == key
            &&& prepared.expected_object_version == Some(base.version)
            &&& prepared.candidate.logical_length == base.logical_length
            &&& layout_valid(base.logical_length, prepared.candidate.extents)
            &&& prepared.candidate.digest == sha256_of(
                layout_bytes(base.logical_length, prepared.candidate.extents),
            )
            &&& prepared.new_replicas.len() == 0
            &&& 0 <= position < base.logical_length ==> byte_at(
                node.arena,
                prepared.candidate.extents,
                position,
            ) == if offset <= position < offset + length {
                0
            } else {
                byte_at(node.arena, base.extents, position)
            }
        },
{
    let base = resolved.layout->0;
    if node.punch_prepared(key, offset, length, operation_id, resolved) is Ok {
        crate::version_layout::a_punched_hole_reads_as_zeros_and_keeps_the_rest(
            base.extents,
            base.logical_length,
            offset,
            length,
        );
    }
}

/// A session with a lease that wrote a range holds the value's key from then on: the next
/// invalidation of the key gives it an event and waits until it acknowledges that event. A write is
/// answered with its version, the value's length and its barrier as long as its session can be used,
/// and with an error only where it cannot.
pub proof fn a_writer_of_a_range_is_told_of_the_next_version(
    node: NodeView,
    commit: LayoutCommitView,
    version: u64,
    barrier_id: Option<u64>,
    failed: Seq<u64>,
    session_id: u64,
)
    requires
        node.wf(),
        commit.cache_session_id == Some(session_id),
        node.sessions.sessions.contains_key(session_id),
        node.sessions.next_barrier < u64::MAX,
        node.sessions.sessions[session_id].next_event_sequence < u64::MAX,
    ensures
        ({
            let (next, outcome) = node.layout_settled(commit, version, barrier_id, failed);
            let before = node.sessions.sessions[session_id];
            let after = next.sessions.sessions[session_id];
            &&& outcome is Ok <==> !before.disconnected && !failed.contains(session_id)
            &&& outcome matches Ok(set) ==> set.version == version && set.length
                == commit.candidate.logical_length && set.barrier_id == barrier_id
            &&& next.sessions.sessions.contains_key(session_id)
            &&& after.cache_until == before.cache_until
            &&& outcome is Ok && before.cache_until is Some ==> {
                &&& after.cache_interest_all || after.cached_keys.contains(commit.key)
                &&& next.sessions.holders(commit.key).contains(session_id)
                &&& next.sessions.invalidated(
                    commit.key,
                ).sessions[session_id].next_event_sequence == before.next_event_sequence + 1
                &&& next.sessions.invalidated(
                    commit.key,
                ).barriers[node.sessions.next_barrier].waiting.contains_key(session_id)
            }
            &&& forall|key: Seq<u8>| #[trigger]
                node.sessions.holders(key).contains(session_id) ==> next.sessions.holders(
                    key,
                ).contains(session_id)
            &&& next.cache == node.cache
        }),
        node.layout_settled(
            (LayoutCommitView { cache_session_id: None, ..commit }),
            version,
            barrier_id,
            failed,
        ).1 == Ok::<SetOutcome, WorkerError>(
            SetOutcome { version, length: commit.candidate.logical_length, barrier_id },
        ),
{
    let (next, outcome) = node.layout_settled(commit, version, barrier_id, failed);
    let told = node.undelivered(failed);
    assert(failed.to_set().contains(session_id) <==> failed.contains(session_id));
    assert(told.sessions.sessions.contains_key(session_id));
    if outcome is Ok && node.sessions.sessions[session_id].cache_until is Some {
        assert(next.sessions.holders(commit.key).contains(session_id));
    }
    assert forall|key: Seq<u8>| #[trigger]
        node.sessions.holders(key).contains(session_id) implies next.sessions.holders(
        key,
    ).contains(session_id) by {
        crate::session::a_noted_key_is_held_and_none_is_forgotten(
            told.sessions.sessions[session_id],
            commit.key,
            key,
        );
    }
}

/// The number that some decimal digits stand for.
pub open spec fn number_of(digits: Seq<char>) -> nat
    decreases digits.len(),
{
    if digits.len() == 0 {
        0
    } else {
        number_of(digits.drop_last()) * 10 + (digits.last() as nat - '0' as nat) as nat
    }
}

proof fn lemma_decimal(value: nat)
    ensures
        number_of(decimal_of(value)) == value,
        decimal_of(value).len() > 0,
        forall|i: int|
            0 <= i < decimal_of(value).len() ==> '0' <= #[trigger] decimal_of(value)[i] <= '9',
        value > 0 ==> decimal_of(value)[0] != '0',
    decreases value,
{
    let digits = decimal_of(value);
    if value < 10 {
        assert(digits.drop_last() =~= Seq::empty());
        assert(number_of(digits.drop_last()) == 0);
        assert(digits.last() == hex_digit(value as u8));
    } else {
        lemma_decimal(value / 10);
        assert(digits.drop_last() =~= decimal_of(value / 10));
        assert(digits.last() == hex_digit((value % 10) as u8));
    }
}

/// The condition of a change names the version that the change was made from, in decimal digits and
/// without leading zeros, so that changes of different versions have different conditions.
pub proof fn a_condition_names_its_version(version: u64, other: u64)
    ensures
        version_condition(version).len() > 11,
        version_condition(version).take(11) == "if-version:"@,
        number_of(version_condition(version).skip(11)) == version,
        forall|i: int|
            11 <= i < version_condition(version).len() ==> '0' <= #[trigger] version_condition(
                version,
            )[i] <= '9',
        version > 0 ==> version_condition(version)[11] != '0',
        version_condition(version) == version_condition(other) ==> version == other,
{
    reveal_strlit("if-version:");
    lemma_decimal(version as nat);
    lemma_decimal(other as nat);
    assert(version_condition(version).take(11) =~= "if-version:"@);
    assert(version_condition(version).skip(11) =~= decimal_of(version as nat));
    assert(version_condition(other).skip(11) =~= decimal_of(other as nat));
}

proof fn lemma_first_proofs(
    sets: Seq<ReplicaSetView>,
    kept: spec_fn(ReplicaSetView) -> bool,
    proofs: Seq<ProofView>,
)
    requires
        proofs == first_proofs(sets, kept),
    ensures
        forall|i: int|
            #![trigger sets[i]]
            0 <= i < sets.len() && kept(sets[i]) && sets[i].proofs.len() > 0 ==> proofs.contains(
                sets[i].proofs[0],
            ),
        forall|j: int|
            #![trigger proofs[j]]
            0 <= j < proofs.len() ==> exists|i: int|
                #![trigger sets[i]]
                0 <= i < sets.len() && kept(sets[i]) && sets[i].proofs.len() > 0
                    && sets[i].proofs[0] == proofs[j],
    decreases sets.len(),
{
    if sets.len() > 0 {
        let rest = sets.drop_last();
        let earlier = first_proofs(rest, kept);
        lemma_first_proofs(rest, kept, earlier);
        assert forall|i: int|
            #![trigger sets[i]]
            0 <= i < sets.len() && kept(sets[i]) && sets[i].proofs.len()
                > 0 implies proofs.contains(sets[i].proofs[0]) by {
            if i < rest.len() {
                assert(rest[i] == sets[i]);
                let j = choose|j: int| 0 <= j < earlier.len() && earlier[j] == sets[i].proofs[0];
                assert(proofs[j] == earlier[j]);
            } else {
                assert(proofs[proofs.len() - 1] == sets[i].proofs[0]);
            }
        }
        assert forall|j: int| #![trigger proofs[j]] 0 <= j < proofs.len() implies exists|i: int|
            #![trigger sets[i]]
            0 <= i < sets.len() && kept(sets[i]) && sets[i].proofs.len() > 0 && sets[i].proofs[0]
                == proofs[j] by {
            if j < earlier.len() {
                assert(earlier[j] == proofs[j]);
                let i = choose|i: int|
                    #![trigger rest[i]]
                    0 <= i < rest.len() && kept(rest[i]) && rest[i].proofs.len() > 0
                        && rest[i].proofs[0] == earlier[j];
                assert(sets[i] == rest[i]);
            } else {
                assert(sets[sets.len() - 1] == sets.last());
            }
        }
    }
}

/// A write carries over the proof of every block that the value had, but for a block of the new
/// one's name, and no other proof.
pub proof fn a_write_carries_the_proofs_of_the_old_blocks(
    node: NodeView,
    key: Seq<u8>,
    offset: u64,
    bytes: Seq<u8>,
    operation_id: Seq<u8>,
    resolved: ResolvedView,
    input: RangeInputView,
)
    ensures
        node.file_write_prepared(key, offset, bytes, operation_id, resolved) matches Ok(
            (_, prepared),
        ) ==> carries(
            resolved.block_replicas,
            prepared.replica_proofs,
            prepared.new_replicas[0].block_id,
            false,
        ),
        node.own_range_proposed(key, offset, bytes, operation_id, resolved) matches Ok(
            (_, commit),
        ) ==> carries(resolved.block_replicas, commit.replica_proofs, commit.block_id, false),
        node.range_proposed(input, resolved) matches Ok((_, commit)) ==> carries(
            resolved.block_replicas,
            commit.replica_proofs,
            commit.block_id,
            true,
        ),
{
    let sets = resolved.block_replicas;
    let own = block_name(node.node_id, operation_id);
    let staged = block_name(node.node_id, input.operation_id);
    lemma_carries(sets, own, false);
    lemma_carries(sets, staged, true);
    if let Ok((_, prepared)) = node.file_write_prepared(
        key,
        offset,
        bytes,
        operation_id,
        resolved,
    ) {
        assert(prepared.replica_proofs == first_proofs(sets, not_for(own, false)));
        assert(prepared.new_replicas[0].block_id == own);
    }
}

#[verifier::spinoff_prover]
proof fn lemma_carries(sets: Seq<ReplicaSetView>, new_block: Seq<u8>, named_only: bool)
    ensures
        carries(sets, first_proofs(sets, not_for(new_block, named_only)), new_block, named_only),
{
    let kept = not_for(new_block, named_only);
    let proofs = first_proofs(sets, kept);
    lemma_first_proofs(sets, kept, proofs);
    assert forall|i: int|
        #![trigger sets[i]]
        0 <= i < sets.len() && sets[i].block_id != new_block && (!named_only
            || sets[i].block_id.len() > 0) && sets[i].proofs.len() > 0 implies proofs.contains(
        sets[i].proofs[0],
    ) by {
        assert(kept(sets[i]));
    }
    assert forall|j: int| #![trigger proofs[j]] 0 <= j < proofs.len() implies vouches(
        sets,
        proofs[j],
        new_block,
    ) by {
        let i = choose|i: int|
            #![trigger sets[i]]
            0 <= i < sets.len() && kept(sets[i]) && sets[i].proofs.len() > 0 && sets[i].proofs[0]
                == proofs[j];
        assert(sets[i].block_id != new_block);
    }
}

/// Whether some proofs are the first ones of the replica sets of all blocks but one, and of no
/// others. Sets without a name may be left out.
pub open spec fn carries(
    sets: Seq<ReplicaSetView>,
    proofs: Seq<ProofView>,
    new_block: Seq<u8>,
    named_only: bool,
) -> bool {
    &&& forall|i: int|
        #![trigger sets[i]]
        0 <= i < sets.len() && sets[i].block_id != new_block && (!named_only
            || sets[i].block_id.len() > 0) && sets[i].proofs.len() > 0 ==> proofs.contains(
            sets[i].proofs[0],
        )
    &&& forall|j: int|
        #![trigger proofs[j]]
        0 <= j < proofs.len() ==> vouches(sets, proofs[j], new_block)
}

/// Whether a proof is the first one of the replica set of a block other than one.
pub open spec fn vouches(sets: Seq<ReplicaSetView>, proof: ProofView, new_block: Seq<u8>) -> bool {
    exists|i: int|
        #![trigger sets[i]]
        0 <= i < sets.len() && sets[i].block_id != new_block && sets[i].proofs.len() > 0
            && sets[i].proofs[0] == proof
}

/// A file with a new length or with a hole carries over the proof of every block that it still takes
/// bytes from, and no other proof.
pub proof fn a_relaid_file_carries_the_proofs_of_its_blocks(
    node: NodeView,
    key: Seq<u8>,
    new_length: u64,
    offset: u64,
    length: u64,
    operation_id: Seq<u8>,
    resolved: ResolvedView,
)
    ensures
        node.truncate_prepared(key, new_length, operation_id, resolved) matches Ok(prepared)
            ==> carries_for(
            resolved.block_replicas,
            prepared.replica_proofs,
            prepared.candidate.extents,
        ),
        node.punch_prepared(key, offset, length, operation_id, resolved) matches Ok(prepared)
            ==> carries_for(
            resolved.block_replicas,
            prepared.replica_proofs,
            prepared.candidate.extents,
        ),
{
    if let Ok(prepared) = node.truncate_prepared(key, new_length, operation_id, resolved) {
        lemma_carries_for(resolved.block_replicas, prepared.candidate.extents);
    }
    if let Ok(prepared) = node.punch_prepared(key, offset, length, operation_id, resolved) {
        lemma_carries_for(resolved.block_replicas, prepared.candidate.extents);
    }
}

#[verifier::spinoff_prover]
proof fn lemma_carries_for(sets: Seq<ReplicaSetView>, extents: Seq<ExtentView>)
    ensures
        carries_for(sets, first_proofs(sets, referred_by(extents)), extents),
{
    let kept = referred_by(extents);
    let proofs = first_proofs(sets, kept);
    lemma_first_proofs(sets, kept, proofs);
    assert forall|i: int, at: int|
        #![trigger sets[i], extents[at]]
        0 <= i < sets.len() && 0 <= at < extents.len() && extents[at].block_id == sets[i].block_id
            && !extents[at].is_hole() && sets[i].proofs.len() > 0 implies proofs.contains(
        sets[i].proofs[0],
    ) by {
        assert(kept(sets[i]));
    }
    assert forall|j: int| #![trigger proofs[j]] 0 <= j < proofs.len() implies vouches_for(
        sets,
        proofs[j],
        extents,
    ) by {
        let i = choose|i: int|
            #![trigger sets[i]]
            0 <= i < sets.len() && kept(sets[i]) && sets[i].proofs.len() > 0 && sets[i].proofs[0]
                == proofs[j];
        assert(refers_to(extents, sets[i].block_id));
        let at = choose|at: int|
            #![trigger extents[at]]
            0 <= at < extents.len() && !extents[at].is_hole() && extents[at].block_id
                == sets[i].block_id;
        assert(extents[at].block_id == sets[i].block_id);
    }
}

/// Whether some proofs are the first ones of the replica sets of the blocks that a layout takes bytes
/// from, and of no others.
pub open spec fn carries_for(
    sets: Seq<ReplicaSetView>,
    proofs: Seq<ProofView>,
    extents: Seq<ExtentView>,
) -> bool {
    &&& forall|i: int, at: int|
        #![trigger sets[i], extents[at]]
        0 <= i < sets.len() && 0 <= at < extents.len() && extents[at].block_id == sets[i].block_id
            && !extents[at].is_hole() && sets[i].proofs.len() > 0 ==> proofs.contains(
            sets[i].proofs[0],
        )
    &&& forall|j: int|
        #![trigger proofs[j]]
        0 <= j < proofs.len() ==> vouches_for(sets, proofs[j], extents)
}

/// Whether a proof is the first one of the replica set of a block that a layout takes bytes from.
pub open spec fn vouches_for(
    sets: Seq<ReplicaSetView>,
    proof: ProofView,
    extents: Seq<ExtentView>,
) -> bool {
    exists|i: int, at: int|
        #![trigger sets[i], extents[at]]
        0 <= i < sets.len() && 0 <= at < extents.len() && extents[at].block_id == sets[i].block_id
            && !extents[at].is_hole() && sets[i].proofs.len() > 0 && sets[i].proofs[0] == proof
}

/// A file that holds nothing but one write reads as what was written, and as zeros around it. No
/// block is made for the zeros. Where the operation was carried out before, its block holds the
/// bytes already.
pub proof fn a_sparse_file_holds_one_write_and_zeros(
    node: NodeView,
    key: Seq<u8>,
    logical_length: u64,
    offset: u64,
    bytes: Seq<u8>,
    operation_id: Seq<u8>,
    expected_version: Option<u64>,
    position: int,
)
    requires
        node.wf(),
        node.sparse_prepared(
            key,
            logical_length,
            offset,
            bytes,
            operation_id,
            expected_version,
        ) is Ok,
        bytes.len() > 0 && node.arena.blocks.contains_key(block_name(node.node_id, operation_id))
            ==> node.arena.block_bytes(block_name(node.node_id, operation_id)) == bytes,
        block_name(node.node_id, operation_id).len() > 0,
        bytes.len() <= u64::MAX,
    ensures
        ({
            let (next, prepared) = node.sparse_prepared(
                key,
                logical_length,
                offset,
                bytes,
                operation_id,
                expected_version,
            )->Ok_0;
            &&& prepared.candidate.logical_length == logical_length
            &&& byte_at(next.arena, prepared.candidate.extents, position) == if offset <= position
                < offset + bytes.len() {
                bytes[position - offset]
            } else {
                0
            }
            &&& forall|id: Seq<u8>| #[trigger]
                next.arena.blocks.contains_key(id) ==> node.arena.blocks.contains_key(id)
                    || (bytes.len() > 0 && id == block_name(node.node_id, operation_id))
        }),
{
    let (next, prepared) = node.sparse_prepared(
        key,
        logical_length,
        offset,
        bytes,
        operation_id,
        expected_version,
    )->Ok_0;
    let block_id = block_name(node.node_id, operation_id);
    let nothing = Seq::<ExtentView>::empty();
    if bytes.len() == 0 {
        crate::version_layout::truncation_keeps_the_prefix_and_grows_with_zeros(
            nothing,
            0,
            logical_length,
        );
        assert(source_at(prepared.candidate.extents, position)
            == crate::version_layout::truncated_source(nothing, 0, logical_length, position));
    } else {
        let length = bytes.len() as u64;
        crate::version_layout::a_write_replaces_its_range_and_nothing_else(
            nothing,
            0,
            offset,
            length,
            block_id,
            sha256_of(bytes),
        );
        let written = overlaid(nothing, 0, offset, length, block_id, sha256_of(bytes));
        crate::version_layout::truncation_keeps_the_prefix_and_grows_with_zeros(
            written,
            (offset + length) as u64,
            logical_length,
        );
        assert(source_at(prepared.candidate.extents, position)
            == crate::version_layout::truncated_source(
            written,
            (offset + length) as u64,
            logical_length,
            position,
        ));
        assert(source_at(written, position) == crate::version_layout::overlaid_source(
            nothing,
            0,
            offset,
            length,
            block_id,
            sha256_of(bytes),
            position,
        ));
        assert(next.arena.block_bytes(block_id) == bytes);
    }
}

/// A range that a client writes keeps the length of the value and asks for the version that it was
/// made from. The bytes that were staged read back, and every other byte whose block is here reads
/// as before. Where the operation was carried out before, its block holds these bytes already.
pub proof fn a_range_write_reads_back_and_keeps_the_length(
    node: NodeView,
    input: RangeInputView,
    resolved: ResolvedView,
    position: int,
)
    requires
        node.wf(),
        node.range_proposed(input, resolved) is Ok,
        node.arena.blocks.contains_key(block_name(node.node_id, input.operation_id))
            ==> Some(node.arena.block_bytes(block_name(node.node_id, input.operation_id)))
            == node.arena.stagings[input.staging_id].payload,
        0 <= position < resolved.layout->0.logical_length,
        source_at(resolved.layout->0.extents, position) matches Some(
            Source::Block { block_id, .. },
        ) ==> node.arena.blocks.contains_key(block_id),
    ensures
        ({
            let (next, commit) = node.range_proposed(input, resolved)->Ok_0;
            let base = resolved.layout->0;
            &&& commit.candidate.logical_length == base.logical_length
            &&& commit.condition == version_condition(base.version)
            &&& byte_at(next.arena, commit.candidate.extents, position) == if input.offset
                <= position < input.offset + input.receipt.length {
                (node.arena.stagings[input.staging_id].payload->0)[position - input.offset]
            } else {
                byte_at(node.arena, base.extents, position)
            }
        }),
{
    let (next, commit) = node.range_proposed(input, resolved)->Ok_0;
    let base = resolved.layout->0;
    let block_id = block_name(node.node_id, input.operation_id);
    crate::version_layout::a_write_replaces_its_range_and_nothing_else(
        base.extents,
        base.logical_length,
        input.offset,
        input.receipt.length,
        block_id,
        input.receipt.digest,
    );
    assert(node.arena.staging_wf(input.staging_id));
    assert(next.arena.block_bytes(block_id) == node.arena.stagings[input.staging_id].payload->0);
    match source_at(base.extents, position) {
        Some(Source::Block { block_id: source, .. }) => {
            assert(node.arena.block_wf(source));
            assert(next.arena.block_bytes(source) == node.arena.block_bytes(source));
        },
        _ => {},
    }
}

/// A range that the node itself writes keeps the length of the value and asks for the version that it
/// was made from. The bytes that were written read back, and every other byte whose block is here
/// reads as before. Where the operation was carried out before, its block holds these bytes already.
pub proof fn an_own_range_write_reads_back_and_keeps_the_length(
    node: NodeView,
    key: Seq<u8>,
    offset: u64,
    bytes: Seq<u8>,
    operation_id: Seq<u8>,
    resolved: ResolvedView,
    position: int,
)
    requires
        node.wf(),
        node.own_range_proposed(key, offset, bytes, operation_id, resolved) is Ok,
        node.arena.blocks.contains_key(block_name(node.node_id, operation_id))
            ==> node.arena.block_bytes(block_name(node.node_id, operation_id)) == bytes,
        bytes.len() <= u64::MAX,
        0 <= position < resolved.layout->0.logical_length,
        source_at(resolved.layout->0.extents, position) matches Some(
            Source::Block { block_id, .. },
        ) ==> node.arena.blocks.contains_key(block_id),
    ensures
        ({
            let (next, commit) = node.own_range_proposed(
                key,
                offset,
                bytes,
                operation_id,
                resolved,
            )->Ok_0;
            let base = resolved.layout->0;
            &&& commit.candidate.logical_length == base.logical_length
            &&& commit.condition == version_condition(base.version)
            &&& byte_at(next.arena, commit.candidate.extents, position) == if offset <= position
                < offset + bytes.len() {
                bytes[position - offset]
            } else {
                byte_at(node.arena, base.extents, position)
            }
        }),
{
    let (next, commit) = node.own_range_proposed(
        key,
        offset,
        bytes,
        operation_id,
        resolved,
    )->Ok_0;
    let base = resolved.layout->0;
    let block_id = block_name(node.node_id, operation_id);
    crate::version_layout::a_write_replaces_its_range_and_nothing_else(
        base.extents,
        base.logical_length,
        offset,
        bytes.len() as u64,
        block_id,
        sha256_of(bytes),
    );
    assert(next.arena.block_bytes(block_id) == bytes);
    match source_at(base.extents, position) {
        Some(Source::Block { block_id: source, .. }) => {
            assert(node.arena.block_wf(source));
            assert(next.arena.block_bytes(source) == node.arena.block_bytes(source));
        },
        _ => {},
    }
}

/// A range or a file that is proposed, and for which there is a block, is under way.
pub proof fn a_proposed_layout_is_under_way(
    node: NodeView,
    operation_id: Seq<u8>,
    input: RangeInputView,
    key: Seq<u8>,
    offset: u64,
    bytes: Seq<u8>,
    logical_length: u64,
    expected_version: Option<u64>,
    resolved: ResolvedView,
)
    requires
        input.operation_id == operation_id,
        0 < bytes.len() <= u64::MAX,
    ensures
        node.range_proposed(input, resolved) matches Ok((next, _)) ==> next.under_way(
            operation_id,
        ),
        node.own_range_proposed(key, offset, bytes, operation_id, resolved) matches Ok((next, _))
            ==> next.under_way(operation_id),
        node.file_write_prepared(key, offset, bytes, operation_id, resolved) matches Ok((next, _))
            ==> next.under_way(operation_id),
        node.sparse_prepared(
            key,
            logical_length,
            offset,
            bytes,
            operation_id,
            expected_version,
        ) matches Ok((next, _)) ==> next.under_way(operation_id),
{
}

/// While an operation is under way, no range and no file is proposed under its name: where nothing
/// else is wrong with the request, it is told to come again.
pub proof fn an_operation_under_way_keeps_ranges_and_files_out(
    node: NodeView,
    operation_id: Seq<u8>,
    input: RangeInputView,
    key: Seq<u8>,
    offset: u64,
    bytes: Seq<u8>,
    logical_length: u64,
    expected_version: Option<u64>,
    resolved: ResolvedView,
)
    requires
        node.under_way(operation_id),
        input.operation_id == operation_id,
        0 < bytes.len() <= u64::MAX,
    ensures
        node.range_proposed(input, resolved) is Err,
        node.own_range_proposed(key, offset, bytes, operation_id, resolved) is Err,
        node.file_write_prepared(key, offset, bytes, operation_id, resolved) is Err,
        node.sparse_prepared(
            key,
            logical_length,
            offset,
            bytes,
            operation_id,
            expected_version,
        ) is Err,
        ({
            let base = resolved.layout->0;
            let length = bytes.len() as u64;
            let unsound = request_fault(key, operation_id) is Some || !node.has_metadata;
            &&& !unsound && node.sessions.live(input.session_id) && input.key == key
                && resolved.layout is Some && range_fault(
                input.offset,
                input.receipt.length,
                base.logical_length,
            ) is None ==> node.range_proposed(input, resolved) == Err::<
                (NodeView, LayoutCommitView),
                WorkerError,
            >(WorkerError::WorkerUnavailable)
            &&& !unsound && resolved.layout is Some && range_fault(
                offset,
                length,
                base.logical_length,
            ) is None ==> node.own_range_proposed(key, offset, bytes, operation_id, resolved)
                == Err::<(NodeView, LayoutCommitView), WorkerError>(
                WorkerError::WorkerUnavailable,
            )
            &&& !unsound && resolved.layout is Some && file_write_fault(
                base.extents,
                base.logical_length,
                offset,
                length,
                block_name(node.node_id, operation_id),
            ) is None ==> node.file_write_prepared(key, offset, bytes, operation_id, resolved)
                == Err::<(NodeView, PreparedView), WorkerError>(WorkerError::WorkerUnavailable)
            &&& !unsound && offset + length <= logical_length ==> node.sparse_prepared(
                key,
                logical_length,
                offset,
                bytes,
                operation_id,
                expected_version,
            ) == Err::<(NodeView, PreparedView), WorkerError>(WorkerError::WorkerUnavailable)
        }),
{
}

/// Whether a layout was proposed as it should be, with the state after it. A proposal that cannot
/// be made changes nothing.
pub open spec fn layout_proposal_made(
    before: NodeView,
    after: NodeView,
    expected: Result<(NodeView, LayoutCommitView), WorkerError>,
    proposed: Result<LayoutCommit, WorkerError>,
) -> bool {
    match (expected, proposed) {
        (Ok((next, commit)), Ok(got)) => after == next && got@ == commit,
        (Err(error), Err(got)) => after == before && got == error,
        _ => false,
    }
}

/// Whether a version was prepared as it should be, with the state after it. A preparation that
/// cannot be made changes nothing.
pub open spec fn preparation_made(
    before: NodeView,
    after: NodeView,
    expected: Result<(NodeView, PreparedView), WorkerError>,
    prepared: Result<PreparedObjectVersion, WorkerError>,
) -> bool {
    match (expected, prepared) {
        (Ok((next, version)), Ok(got)) => after == next && got@ == version,
        (Err(error), Err(got)) => after == before && got == error,
        _ => false,
    }
}

/// The first proof of each replica set that is not for a new block.
fn collect_proofs(sets: &Vec<BlockReplicaSet>, block_id: &Vec<u8>, named_only: bool) -> (proofs: Vec<
    ReplicaProof,
>)
    ensures
        views(proofs@) == first_proofs(views(sets@), not_for(block_id@, named_only)),
{
    let ghost all = views(sets@);
    let ghost kept = not_for(block_id@, named_only);
    let mut proofs: Vec<ReplicaProof> = Vec::new();
    let mut i: usize = 0;
    assert(all.take(0) =~= Seq::empty());
    assert(views(proofs@) =~= Seq::empty());
    while i < sets.len()
        invariant
            i <= sets@.len(),
            all == views(sets@),
            kept == not_for(block_id@, named_only),
            views(proofs@) == first_proofs(all.take(i as int), kept),
        decreases sets.len() - i,
    {
        let ghost so_far = proofs@;
        proof {
            lemma_views_take(sets@, i as int);
        }
        let set: &BlockReplicaSet = &sets[i];
        if !same_bytes(&set.block_id, block_id) && (!named_only || set.block_id.len() > 0)
            && set.proofs.len() > 0 {
            proofs.push(set.proofs[0].duplicate());
            proof {
                lemma_views_push(so_far, proofs@.last());
            }
        }
        i = i + 1;
    }
    assert(all.take(i as int) =~= all);
    proofs
}

/// Whether a layout takes bytes from a block.
fn is_referred(extents: &Vec<ExtentRecord>, block_id: &Vec<u8>) -> (found: bool)
    ensures
        found == refers_to(views(extents@), block_id@),
{
    let ghost all = views(extents@);
    let mut i: usize = 0;
    while i < extents.len()
        invariant
            i <= extents@.len(),
            all == views(extents@),
            forall|j: int|
                #![trigger all[j]]
                0 <= j < i ==> all[j].is_hole() || all[j].block_id != block_id@,
        decreases extents.len() - i,
    {
        if !crate::version_layout::is_hole(&extents[i]) && same_bytes(
            &extents[i].block_id,
            block_id,
        ) {
            assert(!all[i as int].is_hole() && all[i as int].block_id == block_id@);
            return true;
        }
        i = i + 1;
    }
    false
}

/// The first proof of each replica set that is for a block that a layout takes bytes from.
fn collect_referred(sets: &Vec<BlockReplicaSet>, extents: &Vec<ExtentRecord>) -> (proofs: Vec<
    ReplicaProof,
>)
    ensures
        views(proofs@) == first_proofs(views(sets@), referred_by(views(extents@))),
{
    let ghost all = views(sets@);
    let ghost kept = referred_by(views(extents@));
    let mut proofs: Vec<ReplicaProof> = Vec::new();
    let mut i: usize = 0;
    assert(all.take(0) =~= Seq::empty());
    assert(views(proofs@) =~= Seq::empty());
    while i < sets.len()
        invariant
            i <= sets@.len(),
            all == views(sets@),
            kept == referred_by(views(extents@)),
            views(proofs@) == first_proofs(all.take(i as int), kept),
        decreases sets.len() - i,
    {
        let ghost so_far = proofs@;
        proof {
            lemma_views_take(sets@, i as int);
        }
        let set: &BlockReplicaSet = &sets[i];
        if is_referred(extents, &set.block_id) && set.proofs.len() > 0 {
            proofs.push(set.proofs[0].duplicate());
            proof {
                lemma_views_push(so_far, proofs@.last());
            }
        }
        i = i + 1;
    }
    assert(all.take(i as int) =~= all);
    proofs
}

/// A candidate for a version of a value.
fn make_candidate(logical_length: u64, extents: Vec<ExtentRecord>) -> (candidate: VersionCandidate)
    ensures
        candidate@ == candidate_for(logical_length, views(extents@)),
{
    let digest: Vec<u8> = layout_digest(logical_length, &extents);
    VersionCandidate { kind: VersionKind::Value, logical_length, extents, digest }
}

/// A report of a block that was just made.
fn report_block(block_id: &Vec<u8>, length: u64, checksum: Vec<u8>) -> (reports: Vec<ReplicaReport>)
    ensures
        views(reports@) == seq![report_of(block_id@, length, checksum@)],
{
    let mut reports: Vec<ReplicaReport> = Vec::new();
    reports.push(
        ReplicaReport {
            block_id: copy_bytes(block_id),
            length,
            checksum,
            durability: DurabilityPolicy::LocalMemory,
        },
    );
    assert(views(reports@) =~= seq![report_of(block_id@, length, checksum@)]);
    reports
}

/// Fails for a write that cannot be prepared, whatever it writes.
fn check_request(key: &Vec<u8>, operation_id: &Vec<u8>) -> (checked: Result<(), WorkerError>)
    ensures
        checked == crate::limits::checked(request_fault(key@, operation_id@)),
{
    match validate_user_key(key) {
        Ok(_) => validate_operation_id(operation_id),
        Err(error) => Err(error),
    }
}

impl NodeState {
    /// Makes a block of bytes for a write.
    fn store_pending(&mut self, block_id: &Vec<u8>, bytes: Vec<u8>, checksum: &Vec<u8>) -> (stored:
        Result<(), WorkerError>)
        requires
            old(self)@.wf(),
            checksum@ == sha256_of(bytes@),
            old(self)@.preparation_fault(block_id@) is None,
        ensures
            final(self)@.wf(),
            match stored {
                Ok(_) => old(self)@.arena.stored(block_id@, bytes@, sha256_of(bytes@)) is Ok
                    && final(self)@ == old(self)@.with_pending(
                    block_id@,
                    old(self)@.arena.stored(block_id@, bytes@, sha256_of(bytes@))->Ok_0,
                ),
                Err(error) => final(self)@ == old(self)@ && old(self)@.arena.stored(
                    block_id@,
                    bytes@,
                    sha256_of(bytes@),
                ) is Err && error == arena_fault(
                    old(self)@.arena.stored(block_id@, bytes@, sha256_of(bytes@))->Err_0,
                ),
            },
    {
        let owns_block: bool = self.arena.open_read(block_id, None).is_err();
        match self.arena.commit_inline_with_verified_digest(
            copy_bytes(block_id),
            bytes,
            copy_bytes(checksum),
        ) {
            Ok(_) => {},
            Err(error) => return Err(map_arena_error(error)),
        }
        self.pending_blocks.insert(copy_bytes(block_id), owns_block);
        Ok(())
    }

    /// Proposes to replace a range of a value by what a session staged.
    pub fn set_range(&mut self, input: SetRangeInput, resolved: &ResolveObjectResponse) -> (proposed:
        Result<LayoutCommit, WorkerError>)
        requires
            old(self)@.wf(),
        ensures
            final(self)@.wf(),
            layout_proposal_made(
                old(self)@,
                final(self)@,
                old(self)@.range_proposed(input@, resolved@),
                proposed,
            ),
    {
        match check_request(&input.key, &input.operation_id) {
            Ok(_) => {},
            Err(error) => return Err(error),
        }
        match self.sessions.live_session(input.session_id) {
            Ok(_) => {},
            Err(error) => return Err(error),
        }
        if !self.has_metadata {
            return Err(WorkerError::MetadataUnavailable);
        }
        let layout = match &resolved.layout {
            Some(layout) => layout,
            None => return Err(WorkerError::NotFound),
        };
        let patch_end: u64 = match input.offset.checked_add(input.receipt.length) {
            Some(end) => end,
            None => return Err(WorkerError::InvalidArgument("range write overflows u64")),
        };
        if patch_end > layout.logical_length {
            return Err(WorkerError::InvalidArgument("range write extends beyond current value"));
        }
        let block_id: Vec<u8> = block_identity(self.node_id.as_str(), &input.operation_id);
        let counted: HostReceipt = match self.receipt_for_session(
            input.session_id,
            &input.receipt,
        ) {
            Ok(counted) => counted,
            Err(error) => return Err(error),
        };
        let owns_block: bool = match self.check_block_preparation(&block_id) {
            Ok(owns) => owns,
            Err(error) => return Err(error),
        };
        let extents: Vec<ExtentRecord> = match overlay(
            &layout.extents,
            layout.logical_length,
            input.offset,
            counted.length,
            &block_id,
            &counted.digest,
        ) {
            Ok(extents) => extents,
            Err(error) => return Err(error),
        };
        match self.arena.commit_staging(
            input.session_id,
            input.staging_id,
            &counted,
            copy_bytes(&block_id),
        ) {
            Ok(_) => {},
            Err(error) => return Err(map_arena_error(error)),
        }
        self.pending_blocks.insert(copy_bytes(&block_id), owns_block);
        let replica_proofs: Vec<ReplicaProof> = collect_proofs(
            &resolved.block_replicas,
            &block_id,
            true,
        );
        let new_replicas: Vec<ReplicaReport> = report_block(
            &block_id,
            counted.length,
            counted.digest,
        );
        Ok(
            LayoutCommit {
                cache_session_id: Some(input.session_id),
                key: input.key,
                operation_id: input.operation_id,
                candidate: make_candidate(layout.logical_length, extents),
                replica_proofs,
                new_replicas,
                condition: require_version(layout.version),
                block_id,
            },
        )
    }

    /// Proposes to replace a range of a value by bytes of the node's own.
    pub fn set_range_inline_for_data_core(
        &mut self,
        key: Vec<u8>,
        offset: u64,
        bytes: Vec<u8>,
        operation_id: Vec<u8>,
        resolved: &ResolveObjectResponse,
    ) -> (proposed: Result<LayoutCommit, WorkerError>)
        requires
            old(self)@.wf(),
        ensures
            final(self)@.wf(),
            layout_proposal_made(
                old(self)@,
                final(self)@,
                old(self)@.own_range_proposed(key@, offset, bytes@, operation_id@, resolved@),
                proposed,
            ),
    {
        match check_request(&key, &operation_id) {
            Ok(_) => {},
            Err(error) => return Err(error),
        }
        if !self.has_metadata {
            return Err(WorkerError::MetadataUnavailable);
        }
        let layout = match &resolved.layout {
            Some(layout) => layout,
            None => return Err(WorkerError::NotFound),
        };
        let length: u64 = bytes.len() as u64;
        let patch_end: u64 = match offset.checked_add(length) {
            Some(end) => end,
            None => return Err(WorkerError::InvalidArgument("range write overflows u64")),
        };
        if patch_end > layout.logical_length {
            return Err(WorkerError::InvalidArgument("range write extends beyond current value"));
        }
        let block_id: Vec<u8> = block_identity(self.node_id.as_str(), &operation_id);
        match self.check_block_preparation(&block_id) {
            Ok(_) => {},
            Err(error) => return Err(error),
        }
        let checksum: Vec<u8> = digest(&bytes);
        let extents: Vec<ExtentRecord> = match overlay(
            &layout.extents,
            layout.logical_length,
            offset,
            length,
            &block_id,
            &checksum,
        ) {
            Ok(extents) => extents,
            Err(error) => return Err(error),
        };
        match self.store_pending(&block_id, bytes, &checksum) {
            Ok(_) => {},
            Err(error) => return Err(error),
        }
        let replica_proofs: Vec<ReplicaProof> = collect_proofs(
            &resolved.block_replicas,
            &block_id,
            false,
        );
        let new_replicas: Vec<ReplicaReport> = report_block(&block_id, length, checksum);
        Ok(
            LayoutCommit {
                cache_session_id: None,
                key,
                operation_id,
                candidate: make_candidate(layout.logical_length, extents),
                replica_proofs,
                new_replicas,
                condition: require_version(layout.version),
                block_id,
            },
        )
    }

    /// Prepares a write to a file. It may reach beyond the file's end; what lies between is a hole.
    pub fn prepare_range_for_filesystem(
        &mut self,
        key: Vec<u8>,
        offset: u64,
        bytes: Vec<u8>,
        operation_id: Vec<u8>,
        resolved: &ResolveObjectResponse,
    ) -> (prepared: Result<PreparedObjectVersion, WorkerError>)
        requires
            old(self)@.wf(),
        ensures
            final(self)@.wf(),
            preparation_made(
                old(self)@,
                final(self)@,
                old(self)@.file_write_prepared(key@, offset, bytes@, operation_id@, resolved@),
                prepared,
            ),
    {
        match check_request(&key, &operation_id) {
            Ok(_) => {},
            Err(error) => return Err(error),
        }
        if !self.has_metadata {
            return Err(WorkerError::MetadataUnavailable);
        }
        let layout = match &resolved.layout {
            Some(layout) => layout,
            None => return Err(WorkerError::NotFound),
        };
        let length: u64 = bytes.len() as u64;
        let patch_end: u64 = match offset.checked_add(length) {
            Some(end) => end,
            None => return Err(WorkerError::InvalidArgument("range write overflows u64")),
        };
        let block_id: Vec<u8> = block_identity(self.node_id.as_str(), &operation_id);
        let checksum: Vec<u8> = digest(&bytes);
        let extents: Vec<ExtentRecord> = match overlay_file_write(
            &layout.extents,
            layout.logical_length,
            offset,
            length,
            &block_id,
            &checksum,
        ) {
            Ok(extents) => extents,
            Err(error) => return Err(error),
        };
        match self.check_block_preparation(&block_id) {
            Ok(_) => {},
            Err(error) => return Err(error),
        }
        match self.store_pending(&block_id, bytes, &checksum) {
            Ok(_) => {},
            Err(error) => return Err(error),
        }
        let replica_proofs: Vec<ReplicaProof> = collect_proofs(
            &resolved.block_replicas,
            &block_id,
            false,
        );
        let new_replicas: Vec<ReplicaReport> = report_block(&block_id, length, checksum);
        let logical_length: u64 = if patch_end > layout.logical_length {
            patch_end
        } else {
            layout.logical_length
        };
        Ok(
            PreparedObjectVersion {
                object_key: key,
                expected_object_version: Some(layout.version),
                candidate: make_candidate(logical_length, extents),
                replica_proofs,
                new_replicas,
            },
        )
    }

    /// Prepares a file that is a hole but for some bytes.
    pub fn prepare_sparse_for_filesystem(
        &mut self,
        key: Vec<u8>,
        logical_length: u64,
        offset: u64,
        bytes: Vec<u8>,
        operation_id: Vec<u8>,
        expected_version: Option<u64>,
    ) -> (prepared: Result<PreparedObjectVersion, WorkerError>)
        requires
            old(self)@.wf(),
        ensures
            final(self)@.wf(),
            preparation_made(
                old(self)@,
                final(self)@,
                old(self)@.sparse_prepared(
                    key@,
                    logical_length,
                    offset,
                    bytes@,
                    operation_id@,
                    expected_version,
                ),
                prepared,
            ),
    {
        match check_request(&key, &operation_id) {
            Ok(_) => {},
            Err(error) => return Err(error),
        }
        if !self.has_metadata {
            return Err(WorkerError::MetadataUnavailable);
        }
        let length: u64 = bytes.len() as u64;
        let patch_end: u64 = match offset.checked_add(length) {
            Some(end) => end,
            None => return Err(WorkerError::InvalidArgument("sparse write overflows u64")),
        };
        if patch_end > logical_length {
            return Err(
                WorkerError::InvalidArgument("sparse write extends beyond declared file length"),
            );
        }
        let nothing: Vec<ExtentRecord> = Vec::new();
        assert(views(nothing@) =~= Seq::empty());
        let mut new_replicas: Vec<ReplicaReport> = Vec::new();
        let mut extents: Vec<ExtentRecord> = Vec::new();
        assert(views(new_replicas@) =~= Seq::empty());
        if length == 0 {
            extents = match truncate_file(&nothing, 0, logical_length) {
                Ok(extents) => extents,
                Err(error) => return Err(error),
            };
        } else {
            let block_id: Vec<u8> = block_identity(self.node_id.as_str(), &operation_id);
            let checksum: Vec<u8> = digest(&bytes);
            match self.check_block_preparation(&block_id) {
                Ok(_) => {},
                Err(error) => return Err(error),
            }
            let written: Vec<ExtentRecord> = match overlay_file_write(
                &nothing,
                0,
                offset,
                length,
                &block_id,
                &checksum,
            ) {
                Ok(extents) => extents,
                Err(error) => return Err(error),
            };
            let covered: Vec<ExtentRecord> = match truncate_file(
                &written,
                patch_end,
                logical_length,
            ) {
                Ok(extents) => extents,
                Err(error) => return Err(error),
            };
            match self.store_pending(&block_id, bytes, &checksum) {
                Ok(_) => {},
                Err(error) => return Err(error),
            }
            extents = covered;
            new_replicas = report_block(&block_id, length, checksum);
        }
        let replica_proofs: Vec<ReplicaProof> = Vec::new();
        assert(views(replica_proofs@) =~= Seq::empty());
        Ok(
            PreparedObjectVersion {
                object_key: key,
                expected_object_version: expected_version,
                candidate: make_candidate(logical_length, extents),
                replica_proofs,
                new_replicas,
            },
        )
    }

    /// Prepares a file with a new length. No bytes are needed for it.
    pub fn prepare_truncate_for_filesystem(
        &self,
        key: Vec<u8>,
        new_length: u64,
        operation_id: &Vec<u8>,
        resolved: &ResolveObjectResponse,
    ) -> (prepared: Result<PreparedObjectVersion, WorkerError>)
        ensures
            match (self@.truncate_prepared(key@, new_length, operation_id@, resolved@), prepared) {
                (Ok(version), Ok(got)) => got@ == version,
                (Err(error), Err(got)) => got == error,
                _ => false,
            },
    {
        match check_request(&key, operation_id) {
            Ok(_) => {},
            Err(error) => return Err(error),
        }
        if !self.has_metadata {
            return Err(WorkerError::MetadataUnavailable);
        }
        let layout = match &resolved.layout {
            Some(layout) => layout,
            None => return Err(WorkerError::NotFound),
        };
        let extents: Vec<ExtentRecord> = match truncate_file(
            &layout.extents,
            layout.logical_length,
            new_length,
        ) {
            Ok(extents) => extents,
            Err(error) => return Err(error),
        };
        let replica_proofs: Vec<ReplicaProof> = collect_referred(
            &resolved.block_replicas,
            &extents,
        );
        let new_replicas: Vec<ReplicaReport> = Vec::new();
        assert(views(new_replicas@) =~= Seq::empty());
        Ok(
            PreparedObjectVersion {
                object_key: key,
                expected_object_version: Some(layout.version),
                candidate: make_candidate(new_length, extents),
                replica_proofs,
                new_replicas,
            },
        )
    }

    /// Prepares a file with a hole, of the same length. No bytes are needed for it.
    pub fn prepare_punch_hole_for_filesystem(
        &self,
        key: Vec<u8>,
        offset: u64,
        length: u64,
        operation_id: &Vec<u8>,
        resolved: &ResolveObjectResponse,
    ) -> (prepared: Result<PreparedObjectVersion, WorkerError>)
        ensures
            match (
                self@.punch_prepared(key@, offset, length, operation_id@, resolved@),
                prepared,
            ) {
                (Ok(version), Ok(got)) => got@ == version,
                (Err(error), Err(got)) => got == error,
                _ => false,
            },
    {
        match check_request(&key, operation_id) {
            Ok(_) => {},
            Err(error) => return Err(error),
        }
        if !self.has_metadata {
            return Err(WorkerError::MetadataUnavailable);
        }
        let layout = match &resolved.layout {
            Some(layout) => layout,
            None => return Err(WorkerError::NotFound),
        };
        let extents: Vec<ExtentRecord> = match punch_hole_file(
            &layout.extents,
            layout.logical_length,
            offset,
            length,
        ) {
            Ok(extents) => extents,
            Err(error) => return Err(error),
        };
        let replica_proofs: Vec<ReplicaProof> = collect_referred(
            &resolved.block_replicas,
            &extents,
        );
        let new_replicas: Vec<ReplicaReport> = Vec::new();
        assert(views(new_replicas@) =~= Seq::empty());
        Ok(
            PreparedObjectVersion {
                object_key: key,
                expected_object_version: Some(layout.version),
                candidate: make_candidate(layout.logical_length, extents),
                replica_proofs,
                new_replicas,
            },
        )
    }

    /// Ends a preparation. With a version it was published, and the clients have to be told.
    pub fn finish_filesystem_preparation(
        &mut self,
        prepared: &PreparedObjectVersion,
        version: Option<u64>,
        rejected: bool,
        now: u64,
    ) -> (sent: Option<Broadcast>)
        requires
            old(self)@.wf(),
            old(self)@.can_broadcast(),
        ensures
            final(self)@.wf(),
            ({
                let ended = old(self)@.preparations_ended(
                    prepared@.new_replicas,
                    version,
                    rejected,
                );
                match (version, sent) {
                    (Some(version), Some(sent)) => final(self)@ == ended.broadcast(
                        prepared@.object_key,
                        version,
                        now,
                    ) && ended.announced(prepared@.object_key, version, now, sent),
                    (None, None) => final(self)@ == ended,
                    _ => false,
                }
            }),
    {
        let ghost before = self@;
        let ghost reports = views(prepared.new_replicas@);
        let mut i: usize = 0;
        assert(reports.take(0) =~= Seq::empty());
        while i < prepared.new_replicas.len()
            invariant
                i <= prepared.new_replicas@.len(),
                reports == views(prepared.new_replicas@),
                self@.wf(),
                self@ == before.preparations_ended(reports.take(i as int), version, rejected),
                self@.sessions == before.sessions,
            decreases prepared.new_replicas.len() - i,
        {
            proof {
                lemma_views_take(prepared.new_replicas@, i as int);
            }
            let block_id: &Vec<u8> = &prepared.new_replicas[i].block_id;
            self.finish_block_preparation(block_id, rejected);
            if let Some(version) = version {
                self.arena.mark_committed(block_id, version);
            }
            i = i + 1;
        }
        assert(reports.take(i as int) =~= reports);
        match version {
            Some(version) => Some(
                self.broadcast_invalidation(&prepared.object_key, version, now),
            ),
            None => None,
        }
    }

    /// Ends a write of a range that was published, after the clients were told of it, but for
    /// those that could not be.
    pub fn settle_layout(
        &mut self,
        commit: &LayoutCommit,
        version: u64,
        barrier_id: Option<u64>,
        failed: &Vec<u64>,
    ) -> (outcome: Result<SetOutcome, WorkerError>)
        requires
            old(self)@.wf(),
        ensures
            final(self)@.wf(),
            (final(self)@, outcome) == old(self)@.layout_settled(
                commit@,
                version,
                barrier_id,
                failed@,
            ),
    {
        self.delivery_failed(failed);
        if let Some(session_id) = commit.cache_session_id {
            match self.sessions.register_cache_interest(session_id, &commit.key) {
                Ok(_) => {},
                Err(error) => return Err(error),
            }
        }
        Ok(SetOutcome { version, length: commit.candidate.logical_length, barrier_id })
    }
}

} // verus!
