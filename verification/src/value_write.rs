//! Writes of whole values. A write first makes a block of the bytes, then proposes a version to the
//! metadata service, and ends with what the service says of it. A block goes again only where the
//! service certainly did not publish it and the node made it for this write.
use crate::arena::HostReceipt;
#[allow(unused_imports)]
use crate::arena::{ArenaView, ReceiptView};
use crate::bytes::copy_bytes;
#[allow(unused_imports)]
use crate::bytes::views;
use crate::current_cache::NANOS_PER_MILLI;
use crate::digest::digest;
#[allow(unused_imports)]
use crate::digest::sha256_of;
#[allow(unused_imports)]
use crate::error::{arena_fault, proves_unpublished, ErrorCode};
use crate::error::{
    is_definitive_metadata_rejection, map_arena_error, map_metadata_error, DmsError, WorkerError,
};
use crate::identity::block_identity;
#[allow(unused_imports)]
use crate::identity::block_name;
use crate::limits::{validate_grpc_payload_bytes, validate_operation_id, validate_user_key};
#[allow(unused_imports)]
use crate::limits::{key_fault, operation_fault, payload_fault};
use crate::node::NodeState;
#[allow(unused_imports)]
use crate::node::NodeView;
use crate::node_session::Broadcast;
#[allow(unused_imports)]
use crate::node_session::{broadcast_sent, receipt_for, reclaimed_all};
use crate::protocol::{
    BlockReplicaSet, CurrentLeaseGrant, DurabilityPolicy, ReplicaLocation, ReplicaProof,
    ResolveObjectResponse, VersionKind, VersionLayout,
};
#[allow(unused_imports)]
use crate::protocol::{LayoutView, LocationView, ProofView, ReplicaSetView, ResolvedView};
use crate::version_layout::{data_extent, ExtentRecord};
#[allow(unused_imports)]
use crate::version_layout::{data_view, source_at, Source};
use vstd::prelude::*;

verus! {

/// What came of a write.
#[derive(Clone, Copy, Debug, PartialEq, Eq, Structural)]
pub struct SetOutcome {
    pub version: u64,
    pub length: u64,
    /// The barrier to wait for before the write is reported, if there is any.
    pub barrier_id: Option<u64>,
}

/// What the metadata service says of a version that it published.
#[derive(Clone, Copy, Debug, PartialEq, Eq, Structural)]
pub struct CommitResult {
    pub version: u64,
    pub revision: u64,
}

/// How the metadata service knows this node.
#[derive(Debug, PartialEq, Eq)]
pub struct LocalReplicaIdentity {
    pub node_id: u64,
    pub node_epoch: u64,
    pub data_endpoint: String,
}

/// How the metadata service knows this node, as a value.
#[verifier::ext_equal]
pub struct IdentityView {
    pub node_id: u64,
    pub node_epoch: u64,
    pub data_endpoint: Seq<char>,
}

impl View for LocalReplicaIdentity {
    type V = IdentityView;

    open spec fn view(&self) -> IdentityView {
        IdentityView {
            node_id: self.node_id,
            node_epoch: self.node_epoch,
            data_endpoint: self.data_endpoint@,
        }
    }
}

/// A value that is proposed to the metadata service.
#[derive(Debug, PartialEq, Eq)]
pub struct ValueCommit {
    /// The session that will have the value cached.
    pub cache_session_id: Option<u64>,
    pub key: Vec<u8>,
    pub block_id: Vec<u8>,
    pub length: u64,
    pub checksum: Vec<u8>,
    pub operation_id: Vec<u8>,
    pub condition: String,
    /// The generation of the cache and the time, as of the proposal.
    pub cache_refill: Option<(u64, u64)>,
}

/// A value that is proposed to the metadata service, as a value.
#[verifier::ext_equal]
pub struct ValueCommitView {
    pub cache_session_id: Option<u64>,
    pub key: Seq<u8>,
    pub block_id: Seq<u8>,
    pub length: u64,
    pub checksum: Seq<u8>,
    pub operation_id: Seq<u8>,
    pub condition: Seq<char>,
    pub cache_refill: Option<(u64, u64)>,
}

impl View for ValueCommit {
    type V = ValueCommitView;

    open spec fn view(&self) -> ValueCommitView {
        ValueCommitView {
            cache_session_id: self.cache_session_id,
            key: self.key@,
            block_id: self.block_id@,
            length: self.length,
            checksum: self.checksum@,
            operation_id: self.operation_id@,
            condition: self.condition@,
            cache_refill: self.cache_refill,
        }
    }
}

impl NodeView {
    /// Why a block cannot be made for a write.
    pub open spec fn preparation_fault(self, block_id: Seq<u8>) -> Option<WorkerError> {
        if !self.has_metadata {
            Some(WorkerError::MetadataUnavailable)
        } else if self.pending_blocks.contains_key(block_id) {
            Some(WorkerError::WorkerUnavailable)
        } else {
            None
        }
    }

    /// Whether a write of an operation is under way.
    pub open spec fn under_way(self, operation_id: Seq<u8>) -> bool {
        self.pending_blocks.contains_key(block_name(self.node_id, operation_id))
    }

    /// The state after a block was made for a write. The node owns the block if it was not there
    /// before.
    pub open spec fn with_pending(self, block_id: Seq<u8>, arena: ArenaView) -> NodeView {
        NodeView {
            arena,
            pending_blocks: self.pending_blocks.insert(
                block_id,
                !self.arena.blocks.contains_key(block_id),
            ),
            ..self
        }
    }

    /// The state after a write of a block has ended. A block that the node owns goes where the
    /// write was certainly not published.
    pub open spec fn preparation_ended(self, block_id: Seq<u8>, rejected: bool) -> NodeView {
        NodeView {
            arena: if rejected && self.pending_blocks.contains_key(block_id)
                && self.pending_blocks[block_id] {
                self.arena.retired(block_id)
            } else {
                self.arena
            },
            pending_blocks: self.pending_blocks.remove(block_id),
            ..self
        }
    }

    /// The generation of the cache and the time, as of a proposal.
    pub open spec fn refill_mark(self, now: u64) -> Option<(u64, u64)> {
        match self.cache.token() {
            Some(token) => Some((token, now)),
            None => None,
        }
    }

    /// A proposal of a value, and the state in which its block is pending; or why there is none.
    /// Without bytes there is no block.
    pub open spec fn bytes_proposed(
        self,
        session_id: Option<u64>,
        key: Seq<u8>,
        bytes: Seq<u8>,
        operation_id: Seq<u8>,
        condition: Seq<char>,
        now: u64,
    ) -> Result<(NodeView, ValueCommitView), WorkerError> {
        let block_id = block_name(self.node_id, operation_id);
        let commit = ValueCommitView {
            cache_session_id: session_id,
            key,
            block_id,
            length: bytes.len() as u64,
            checksum: sha256_of(bytes),
            operation_id,
            condition,
            cache_refill: self.refill_mark(now),
        };
        if bytes.len() == 0 {
            if self.has_metadata {
                Ok((self, commit))
            } else {
                Err(WorkerError::MetadataUnavailable)
            }
        } else if self.preparation_fault(block_id) is Some {
            Err(self.preparation_fault(block_id)->0)
        } else {
            match self.arena.stored(block_id, bytes, sha256_of(bytes)) {
                Err(error) => Err(arena_fault(error)),
                Ok(arena) => Ok((self.with_pending(block_id, arena), commit)),
            }
        }
    }

    /// A session's proposal of a value that it sent along.
    pub open spec fn inline_proposed(
        self,
        session_id: u64,
        key: Seq<u8>,
        bytes: Seq<u8>,
        operation_id: Seq<u8>,
        condition: Seq<char>,
        now: u64,
    ) -> Result<(NodeView, ValueCommitView), WorkerError> {
        if key_fault(key) is Some {
            Err(key_fault(key)->0)
        } else if operation_fault(operation_id) is Some {
            Err(operation_fault(operation_id)->0)
        } else if payload_fault(bytes.len() as u64) is Some {
            Err(payload_fault(bytes.len() as u64)->0)
        } else if !self.sessions.live(session_id) {
            Err(WorkerError::UnknownSession)
        } else {
            self.bytes_proposed(Some(session_id), key, bytes, operation_id, condition, now)
        }
    }

    /// The node's own proposal of a value.
    pub open spec fn own_proposed(
        self,
        key: Seq<u8>,
        bytes: Seq<u8>,
        operation_id: Seq<u8>,
        condition: Seq<char>,
        now: u64,
    ) -> Result<(NodeView, ValueCommitView), WorkerError> {
        if key_fault(key) is Some {
            Err(key_fault(key)->0)
        } else if operation_fault(operation_id) is Some {
            Err(operation_fault(operation_id)->0)
        } else {
            self.bytes_proposed(None, key, bytes, operation_id, condition, now)
        }
    }

    /// A proposal of a value by a session that sent it along, or by the node itself.
    pub open spec fn written_proposed(
        self,
        writer: Option<u64>,
        key: Seq<u8>,
        bytes: Seq<u8>,
        operation_id: Seq<u8>,
        condition: Seq<char>,
        now: u64,
    ) -> Result<(NodeView, ValueCommitView), WorkerError> {
        match writer {
            Some(session_id) => self.inline_proposed(
                session_id,
                key,
                bytes,
                operation_id,
                condition,
                now,
            ),
            None => self.own_proposed(key, bytes, operation_id, condition, now),
        }
    }

    /// A session's proposal of a value that it staged.
    pub open spec fn staged_proposed(
        self,
        session_id: u64,
        key: Seq<u8>,
        staging_id: u64,
        receipt: ReceiptView,
        operation_id: Seq<u8>,
        condition: Seq<char>,
        now: u64,
    ) -> Result<(NodeView, ValueCommitView), WorkerError> {
        let block_id = block_name(self.node_id, operation_id);
        let counted = receipt_for(self.sessions.sessions[session_id], receipt);
        if key_fault(key) is Some {
            Err(key_fault(key)->0)
        } else if operation_fault(operation_id) is Some {
            Err(operation_fault(operation_id)->0)
        } else if !self.sessions.live(session_id) {
            Err(WorkerError::UnknownSession)
        } else if self.preparation_fault(block_id) is Some {
            Err(self.preparation_fault(block_id)->0)
        } else {
            match self.arena.sealed(session_id, staging_id, counted, block_id) {
                Err(error) => Err(arena_fault(error)),
                Ok(arena) => Ok(
                    (
                        self.with_pending(block_id, arena),
                        ValueCommitView {
                            cache_session_id: Some(session_id),
                            key,
                            block_id,
                            length: receipt.length,
                            checksum: receipt.digest,
                            operation_id,
                            condition,
                            cache_refill: self.refill_mark(now),
                        },
                    ),
                ),
            }
        }
    }

    /// The state after the metadata service published a block.
    pub open spec fn block_published(self, block_id: Seq<u8>, version: u64) -> NodeView {
        let ended = self.preparation_ended(block_id, false);
        NodeView { arena: ended.arena.committed(block_id, version), ..ended }
    }

    /// The state after some sessions could not be told of an event.
    pub open spec fn undelivered(self, failed: Seq<u64>) -> NodeView {
        NodeView {
            sessions: self.sessions.cut_off(failed.to_set()),
            arena: reclaimed_all(self.arena, failed),
            ..self
        }
    }

    /// The whole milliseconds for which the metadata service will have kept the node informed
    /// since some moment.
    pub open spec fn lease_millis_since(self, moment: u64) -> u64 {
        if self.metadata_lease_until <= moment {
            0
        } else {
            ((self.metadata_lease_until - moment) / NANOS_PER_MILLI as int) as u64
        }
    }

    /// The state after a value that was just published was offered to the cache.
    pub open spec fn written_through(
        self,
        token: u64,
        requested_at: u64,
        commit: ValueCommitView,
        committed: CommitResult,
        identity: IdentityView,
        now: u64,
    ) -> NodeView {
        if !self.informed(now) || self.lease_millis_since(requested_at) == 0 {
            self
        } else {
            NodeView {
                cache: self.cache.offered(
                    token,
                    commit.key,
                    published_answer(
                        commit,
                        committed,
                        identity,
                        self.lease_millis_since(requested_at),
                    ),
                    requested_at,
                    identity.node_epoch,
                    now,
                ),
                ..self
            }
        }
    }

    /// The state after a session was noted to have a key cached, or why it was not.
    pub open spec fn interest_noted(self, session_id: Option<u64>, key: Seq<u8>) -> Result<
        NodeView,
        WorkerError,
    > {
        match session_id {
            None => Ok(self),
            Some(session_id) => if self.sessions.live(session_id) {
                Ok(
                    NodeView {
                        sessions: self.sessions.with_session(
                            session_id,
                            self.sessions.sessions[session_id].interested(key),
                        ),
                        ..self
                    },
                )
            } else {
                Err(WorkerError::UnknownSession)
            },
        }
    }

    /// The state at the end of a write of a value, after the clients were told of it, and what
    /// came of the write. The value is offered to the cache only where nothing else was forgotten
    /// since the proposal than what the write itself made the cache forget.
    pub open spec fn value_settled(
        self,
        commit: ValueCommitView,
        committed: CommitResult,
        identity: IdentityView,
        barrier_id: Option<u64>,
        failed: Seq<u64>,
        now: u64,
    ) -> (NodeView, Result<SetOutcome, WorkerError>) {
        let told = self.undelivered(failed);
        let refilled = match commit.cache_refill {
            Some((token, requested_at)) => if token < u64::MAX && told.cache.token() == Some(
                (token + 1) as u64,
            ) {
                told.written_through(
                    (token + 1) as u64,
                    requested_at,
                    commit,
                    committed,
                    identity,
                    now,
                )
            } else {
                told
            },
            None => told,
        };
        match refilled.interest_noted(commit.cache_session_id, commit.key) {
            Err(error) => (refilled, Err(error)),
            Ok(next) => (
                next,
                Ok(
                    SetOutcome {
                        version: committed.version,
                        length: commit.length,
                        barrier_id,
                    },
                ),
            ),
        }
    }
}

/// What the metadata service would say of a value that was just published.
pub open spec fn published_answer(
    commit: ValueCommitView,
    committed: CommitResult,
    identity: IdentityView,
    ttl_millis: u64,
) -> ResolvedView {
    ResolvedView {
        layout: Some(
            LayoutView {
                version: committed.version,
                logical_length: commit.length,
                extents: if commit.length == 0 {
                    Seq::empty()
                } else {
                    seq![data_view(0, commit.length, commit.block_id, 0, commit.checksum)]
                },
                digest: commit.checksum,
                kind: VersionKind::Value,
            },
        ),
        block_replicas: if commit.length == 0 {
            Seq::empty()
        } else {
            seq![
                ReplicaSetView {
                    block_id: commit.block_id,
                    replicas: seq![
                        LocationView {
                            block_id: commit.block_id,
                            node_id: identity.node_id,
                            node_epoch: identity.node_epoch,
                            data_endpoint: identity.data_endpoint,
                            checksum: commit.checksum,
                            durability: DurabilityPolicy::LocalMemory,
                        },
                    ],
                    length: commit.length,
                    proofs: seq![
                        ProofView {
                            block_id: commit.block_id,
                            node_id: identity.node_id,
                            node_epoch: identity.node_epoch,
                            catalog_revision: committed.revision,
                            checksum: commit.checksum,
                            durability: DurabilityPolicy::LocalMemory,
                        },
                    ],
                },
            ]
        },
        current_lease: Some(
            CurrentLeaseGrant {
                version: committed.version,
                revision: committed.revision,
                lease_epoch: identity.node_epoch,
                ttl_millis,
                leader_epoch: 0,
            },
        ),
    }
}


/// The end of a write takes a block away only where the metadata service certainly did not publish
/// it, and only the block that the node itself made for the write.
pub proof fn only_a_certain_rejection_takes_a_block_away(
    node: NodeView,
    block_id: Seq<u8>,
    error: DmsError,
    other: Seq<u8>,
)
    requires
        node.arena.blocks.contains_key(other),
    ensures
        !node.preparation_ended(block_id, proves_unpublished(error)).arena.blocks.contains_key(
            other,
        ) <==> (other == block_id && proves_unpublished(error) && node.pending_blocks.contains_key(
            block_id,
        ) && node.pending_blocks[block_id]),
        !proves_unpublished(error) ==> node.preparation_ended(
            block_id,
            proves_unpublished(error),
        ).arena == node.arena,
{
}

/// A value that is proposed, and for which there is a block, is under way.
pub proof fn a_proposed_value_is_under_way(
    node: NodeView,
    operation_id: Seq<u8>,
    writer: Option<u64>,
    key: Seq<u8>,
    bytes: Seq<u8>,
    condition: Seq<char>,
    session_id: u64,
    staging_id: u64,
    receipt: ReceiptView,
    now: u64,
)
    requires
        bytes.len() > 0,
    ensures
        node.written_proposed(writer, key, bytes, operation_id, condition, now) matches Ok((next, _))
            ==> next.under_way(operation_id),
        node.staged_proposed(
            session_id,
            key,
            staging_id,
            receipt,
            operation_id,
            condition,
            now,
        ) matches Ok((next, _)) ==> next.under_way(operation_id),
{
}

/// What is proposed is what the writer asked for: its key, its operation and its condition, under
/// its own name, and the length and the checksum of the bytes that it sent. The block holds these
/// bytes, or held the name before. Nothing else of the node changes.
pub proof fn a_proposal_is_what_the_writer_asked_for(
    node: NodeView,
    writer: Option<u64>,
    key: Seq<u8>,
    bytes: Seq<u8>,
    operation_id: Seq<u8>,
    condition: Seq<char>,
    now: u64,
)
    requires
        bytes.len() <= u64::MAX,
        node.written_proposed(writer, key, bytes, operation_id, condition, now) is Ok,
    ensures
        ({
            let (next, commit) = node.written_proposed(
                writer,
                key,
                bytes,
                operation_id,
                condition,
                now,
            )->Ok_0;
            &&& commit.key == key
            &&& commit.operation_id == operation_id
            &&& commit.condition == condition
            &&& commit.cache_session_id == writer
            &&& commit.length == bytes.len()
            &&& commit.checksum == sha256_of(bytes)
            &&& commit.cache_refill matches Some((token, requested_at)) ==> node.cache.token()
                == Some(token) && requested_at == now
            &&& commit.cache_refill is None ==> node.cache.token() is None
            &&& bytes.len() > 0 ==> next.arena.blocks.contains_key(commit.block_id)
            &&& bytes.len() > 0 && !node.arena.blocks.contains_key(commit.block_id)
                ==> next.arena.block_bytes(commit.block_id) == bytes
            &&& bytes.len() > 0 ==> next.pending_blocks == node.pending_blocks.insert(
                commit.block_id,
                !node.arena.blocks.contains_key(commit.block_id),
            )
            &&& bytes.len() == 0 ==> next == node
            &&& next.sessions == node.sessions
            &&& next.cache == node.cache
            &&& next.downloads == node.downloads
            &&& next.imports == node.imports
            &&& next.retirements == node.retirements
            &&& writer is Some ==> node.sessions.live(writer->0)
            &&& node.has_metadata
        }),
{
}

/// What is proposed of a staged value is what the session asked for: its key, its operation and its
/// condition, under its own name, and the length and the checksum of its receipt. Nothing of the
/// node changes but its memory and the blocks that are under way.
pub proof fn a_staged_proposal_is_what_the_session_asked_for(
    node: NodeView,
    session_id: u64,
    key: Seq<u8>,
    staging_id: u64,
    receipt: ReceiptView,
    operation_id: Seq<u8>,
    condition: Seq<char>,
    now: u64,
)
    requires
        node.staged_proposed(
            session_id,
            key,
            staging_id,
            receipt,
            operation_id,
            condition,
            now,
        ) is Ok,
    ensures
        ({
            let (next, commit) = node.staged_proposed(
                session_id,
                key,
                staging_id,
                receipt,
                operation_id,
                condition,
                now,
            )->Ok_0;
            &&& commit.key == key
            &&& commit.operation_id == operation_id
            &&& commit.condition == condition
            &&& commit.cache_session_id == Some(session_id)
            &&& commit.length == receipt.length
            &&& commit.checksum == receipt.digest
            &&& commit.cache_refill matches Some((token, requested_at)) ==> node.cache.token()
                == Some(token) && requested_at == now
            &&& commit.cache_refill is None ==> node.cache.token() is None
            &&& next.arena.blocks.contains_key(commit.block_id)
            &&& next.pending_blocks == node.pending_blocks.insert(
                commit.block_id,
                !node.arena.blocks.contains_key(commit.block_id),
            )
            &&& next.sessions == node.sessions
            &&& next.cache == node.cache
            &&& next.downloads == node.downloads
            &&& next.imports == node.imports
            &&& next.retirements == node.retirements
            &&& node.sessions.live(session_id)
            &&& node.has_metadata
        }),
{
}

/// A session with a lease that wrote a value holds the value's key from then on: the next
/// invalidation of the key gives it an event and waits until it acknowledges that event. A write is
/// answered with its version, its length and its barrier as long as its session can be used, and
/// with an error only where it cannot.
pub proof fn a_writer_is_told_of_the_next_version(
    node: NodeView,
    commit: ValueCommitView,
    committed: CommitResult,
    identity: IdentityView,
    barrier_id: Option<u64>,
    failed: Seq<u64>,
    now: u64,
    session_id: u64,
)
    requires
        node.wf(),
        commit.cache_session_id == Some(session_id),
        node.sessions.sessions.contains_key(session_id),
        node.sessions.next_barrier < u64::MAX,
        node.sessions.sessions[session_id].next_event_sequence < u64::MAX,
    ensures
        ({
            let (next, outcome) = node.value_settled(
                commit,
                committed,
                identity,
                barrier_id,
                failed,
                now,
            );
            let before = node.sessions.sessions[session_id];
            let after = next.sessions.sessions[session_id];
            &&& outcome is Ok <==> !before.disconnected && !failed.contains(session_id)
            &&& outcome matches Ok(set) ==> set.version == committed.version && set.length
                == commit.length && set.barrier_id == barrier_id
            &&& next.sessions.sessions.contains_key(session_id)
            &&& after.cache_until == before.cache_until
            &&& outcome is Ok && before.cache_until is Some ==> {
                &&& after.cache_interest_all || after.cached_keys.contains(commit.key)
                &&& next.sessions.holders(commit.key).contains(session_id)
                &&& next.sessions.invalidated(
                    commit.key,
                ).sessions[session_id].next_event_sequence == before.next_event_sequence + 1
                &&& next.sessions.invalidated(commit.key).barriers.contains_key(
                    node.sessions.next_barrier,
                )
                &&& next.sessions.invalidated(
                    commit.key,
                ).barriers[node.sessions.next_barrier].waiting.contains_key(session_id)
                &&& next.sessions.invalidated(
                    commit.key,
                ).barriers[node.sessions.next_barrier].waiting[session_id]
                    == before.next_event_sequence
            }
            &&& forall|key: Seq<u8>| #[trigger]
                node.sessions.holders(key).contains(session_id) ==> next.sessions.holders(
                    key,
                ).contains(session_id)
        }),
{
    let (next, outcome) = node.value_settled(
        commit,
        committed,
        identity,
        barrier_id,
        failed,
        now,
    );
    let told = node.undelivered(failed);
    assert(failed.to_set().contains(session_id) <==> failed.contains(session_id));
    assert(told.sessions.sessions.contains_key(session_id));
    if outcome is Ok && node.sessions.sessions[session_id].cache_until is Some {
        assert(next.sessions.holders(commit.key).contains(session_id));
    }
    assert forall|key: Seq<u8>| #[trigger]
        node.sessions.holders(key).contains(session_id) implies next.sessions.holders(
        key,
    ).contains(session_id) by {
        crate::session::a_noted_key_is_held_and_none_is_forgotten(
            told.sessions.sessions[session_id],
            commit.key,
            key,
        );
    }
}

/// A write that is settled makes no session but its own hold a key, and takes no key from any
/// session.
pub proof fn a_settled_write_leaves_the_other_sessions_alone(
    node: NodeView,
    commit: ValueCommitView,
    committed: CommitResult,
    identity: IdentityView,
    barrier_id: Option<u64>,
    failed: Seq<u64>,
    now: u64,
    other: u64,
)
    requires
        node.sessions.sessions.contains_key(other),
        commit.cache_session_id != Some(other),
    ensures
        ({
            let (next, outcome) = node.value_settled(
                commit,
                committed,
                identity,
                barrier_id,
                failed,
                now,
            );
            &&& next.sessions.sessions.contains_key(other)
            &&& !failed.contains(other) ==> next.sessions.sessions[other]
                == node.sessions.sessions[other]
            &&& failed.contains(other) ==> next.sessions.sessions[other].disconnected
            &&& next.sessions.sessions[other].cache_until
                == node.sessions.sessions[other].cache_until
            &&& next.sessions.sessions[other].cached_keys
                == node.sessions.sessions[other].cached_keys
            &&& next.sessions.sessions[other].cache_interest_all
                == node.sessions.sessions[other].cache_interest_all
            &&& next.sessions.barriers == node.sessions.barriers
            &&& commit.cache_session_id is None ==> outcome is Ok
            &&& outcome is Ok ==> outcome->Ok_0 == (SetOutcome {
                version: committed.version,
                length: commit.length,
                barrier_id,
            })
        }),
{
    assert(failed.to_set().contains(other) <==> failed.contains(other));
}

/// Once the metadata service has published a block, the write is no longer under way, the block keeps
/// its bytes and is told its version, and every session whose lease runs and that may have cached the
/// key is told of that version. Where the service refuses, nobody is told anything, and the block
/// goes if and only if the write made it and it is certain that nothing was published.
pub proof fn a_published_block_is_kept_and_told_of(
    before: NodeView,
    after: NodeView,
    key: Seq<u8>,
    block_id: Seq<u8>,
    committed: Result<u64, DmsError>,
    now: u64,
    published: Result<Broadcast, WorkerError>,
    session_id: u64,
)
    requires
        before.wf(),
        before.can_broadcast(),
        block_announced(before, after, key, block_id, committed, now, published),
        before.sessions.sessions.contains_key(session_id),
    ensures
        !after.pending_blocks.contains_key(block_id),
        after.pending_blocks == before.pending_blocks.remove(block_id),
        committed matches Ok(version) ==> {
            let session = before.sessions.sessions[session_id];
            let told = session.cache_until is Some && now < session.cache_until->0 && (
            session.cache_interest_all || session.cached_keys.contains(key));
            &&& published is Ok
            &&& before.arena.blocks.contains_key(block_id) ==> {
                &&& after.arena.blocks.contains_key(block_id)
                &&& after.arena.blocks[block_id].version == Some(version)
                &&& after.arena.block_bytes(block_id) == before.arena.block_bytes(block_id)
            }
            &&& told ==> after.sessions.sessions[session_id].next_event_sequence
                == session.next_event_sequence + 1 && published->Ok_0.barrier_id is Some
            &&& after.cache.entries.contains_key(key) ==> after.cache.entries[key].layout.version
                >= version
        },
        committed matches Err(error) ==> {
            let certain = error.code == ErrorCode::MetaCatalogInvalidRequest || error.code
                == ErrorCode::MetaCatalogVersionConflict;
            &&& published is Err && published->Err_0 == WorkerError::Stable(error)
            &&& after.sessions == before.sessions
            &&& after.cache == before.cache
            &&& before.arena.blocks.contains_key(block_id) ==> (after.arena.blocks.contains_key(
                block_id,
            ) <==> !(certain && before.pending_blocks.contains_key(block_id)
                && before.pending_blocks[block_id]))
        },
{
    if let Ok(version) = committed {
        let told = before.block_published(block_id, version);
        assert(told.arena.wf()) by {
            assert(told.arena.blocks.dom() =~= before.arena.blocks.dom());
            crate::arena::lemma_same_memory(before.arena, told.arena);
        }
        assert(told.needed() =~= before.needed()) by {
            assert forall|id: u64| told.arena.written_by(id) == before.arena.written_by(id) by {
                if before.arena.written_by(id) {
                    let block = choose|block: Seq<u8>|
                        #![trigger before.arena.blocks.contains_key(block)]
                        before.arena.blocks.contains_key(block)
                            && before.arena.blocks[block].writer == Some(id);
                    assert(told.arena.blocks.contains_key(block));
                }
                if told.arena.written_by(id) {
                    let block = choose|block: Seq<u8>|
                        #![trigger told.arena.blocks.contains_key(block)]
                        told.arena.blocks.contains_key(block) && told.arena.blocks[block].writer
                            == Some(id);
                    assert(before.arena.blocks.contains_key(block));
                }
            }
        }
        crate::node_session::a_new_version_reaches_every_holder(
            told,
            key,
            version,
            now,
            published->Ok_0,
            session_id,
        );
    }
}

/// A value may be proposed if and only if its key and its operation have proper names, it fits into a
/// message where a session sent it, that session can be used, there is a metadata service, and, unless
/// it is empty, its operation is not under way and there is room for its block.
pub proof fn a_proper_value_may_be_proposed(
    node: NodeView,
    writer: Option<u64>,
    key: Seq<u8>,
    bytes: Seq<u8>,
    operation_id: Seq<u8>,
    condition: Seq<char>,
    now: u64,
    session_id: u64,
    staging_id: u64,
    receipt: ReceiptView,
)
    requires
        bytes.len() <= u64::MAX,
    ensures
        ({
            let block_id = block_name(node.node_id, operation_id);
            node.written_proposed(writer, key, bytes, operation_id, condition, now) is Ok <==> {
                &&& 1 <= key.len() <= 1024
                &&& operation_id.len() == 24
                &&& writer matches Some(id) ==> bytes.len() <= 8388608
                    && node.sessions.sessions.contains_key(id)
                    && !node.sessions.sessions[id].disconnected
                &&& node.has_metadata
                &&& bytes.len() == 0 || (!node.pending_blocks.contains_key(block_id)
                    && node.arena.stored(block_id, bytes, sha256_of(bytes)) is Ok)
            }
        }),
        ({
            let block_id = block_name(node.node_id, operation_id);
            let staging = node.arena.stagings[staging_id];
            node.staged_proposed(
                session_id,
                key,
                staging_id,
                receipt,
                operation_id,
                condition,
                now,
            ) is Ok <==> {
                &&& 1 <= key.len() <= 1024
                &&& operation_id.len() == 24
                &&& node.sessions.sessions.contains_key(session_id)
                &&& !node.sessions.sessions[session_id].disconnected
                &&& node.has_metadata
                &&& !node.pending_blocks.contains_key(block_id)
                &&& node.arena.stagings.contains_key(staging_id)
                &&& staging.session_id == session_id
                &&& staging.payload is Some
                &&& receipt.length == staging.length
                &&& receipt.digest == staging.digest
                &&& node.arena.blocks.contains_key(block_id) ==> node.arena.blocks[block_id].length
                    == staging.length && node.arena.blocks[block_id].digest == staging.digest
            }
        }),
{
}

/// A value that may not be proposed is refused for the first of these reasons that holds: its key or its
/// operation has no proper name; it is too large for a message; its session cannot be used; there is no
/// metadata service; its operation is under way; its block is there with other contents; there is no
/// room.
pub proof fn a_refused_value_is_told_why(
    node: NodeView,
    writer: Option<u64>,
    key: Seq<u8>,
    bytes: Seq<u8>,
    operation_id: Seq<u8>,
    condition: Seq<char>,
    now: u64,
    session_id: u64,
    staging_id: u64,
    receipt: ReceiptView,
)
    requires
        bytes.len() <= u64::MAX,
    ensures
        ({
            let outcome = node.written_proposed(writer, key, bytes, operation_id, condition, now);
            let staged = node.staged_proposed(
                session_id,
                key,
                staging_id,
                receipt,
                operation_id,
                condition,
                now,
            );
            let block_id = block_name(node.node_id, operation_id);
            let named = 1 <= key.len() <= 1024 && operation_id.len() == 24;
            let small = writer is Some ==> bytes.len() <= 8388608;
            let usable = writer is Some ==> node.sessions.sessions.contains_key(writer->0)
                && !node.sessions.sessions[writer->0].disconnected;
            let known = node.sessions.sessions.contains_key(session_id)
                && !node.sessions.sessions[session_id].disconnected;
            let idle = !node.pending_blocks.contains_key(block_id);
            let block = node.arena.blocks[block_id];
            &&& !named ==> outcome is Err && outcome->Err_0 is InvalidArgument
            &&& named && !small ==> outcome is Err && outcome->Err_0 is ResourceExhausted
            &&& named && small && !usable ==> outcome is Err && outcome->Err_0
                == WorkerError::UnknownSession
            &&& named && small && usable && !node.has_metadata ==> outcome is Err && outcome->Err_0
                == WorkerError::MetadataUnavailable
            &&& named && small && usable && node.has_metadata && bytes.len() > 0 && !idle
                ==> outcome is Err && outcome->Err_0 == WorkerError::WorkerUnavailable
            &&& named && small && usable && node.has_metadata && bytes.len() > 0 && idle
                && node.arena.blocks.contains_key(block_id) && (block.length != bytes.len()
                || block.digest != sha256_of(bytes)) ==> outcome is Err && outcome->Err_0
                == WorkerError::Conflict
            &&& named && small && usable && node.has_metadata && bytes.len() > 0 && idle
                && !node.arena.blocks.contains_key(block_id) && node.arena.used + bytes.len()
                > node.arena.capacity ==> outcome is Err && outcome->Err_0
                == WorkerError::ResourceExhausted
            &&& !named ==> staged is Err && staged->Err_0 is InvalidArgument
            &&& named && !known ==> staged is Err && staged->Err_0 == WorkerError::UnknownSession
            &&& named && known && !node.has_metadata ==> staged is Err && staged->Err_0
                == WorkerError::MetadataUnavailable
            &&& named && known && node.has_metadata && !idle ==> staged is Err && staged->Err_0
                == WorkerError::WorkerUnavailable
        }),
{
}

/// A value that was just published is in the cache afterwards, as the current version, if the node is
/// informed, nothing was forgotten since the proposal but by the write itself, the node's lease then
/// had at least a millisecond left, nothing newer is cached, and there is room.
pub proof fn a_published_value_is_remembered(
    node: NodeView,
    commit: ValueCommitView,
    committed: CommitResult,
    identity: IdentityView,
    barrier_id: Option<u64>,
    failed: Seq<u64>,
    now: u64,
    token: u64,
    requested_at: u64,
)
    requires
        commit.cache_refill == Some((token, requested_at)),
        token + 1 == node.cache.generation,
        node.cache.generation < u64::MAX,
        node.metadata_watch_connected,
        now < node.metadata_lease_until,
        requested_at <= now,
        now + 1_000_000 <= node.metadata_lease_until,
        now < requested_at + node.cache.ttl,
        !(node.cache.entries.contains_key(commit.key)
            && node.cache.entries[commit.key].layout.version > committed.version),
        crate::table::total(
            node.cache.entries.remove(commit.key),
            crate::current_cache::entry_weight(),
        ) + commit.key.len() + commit.block_id.len() + commit.checksum.len() <= node.cache.budget,
    ensures
        ({
            let next = node.value_settled(
                commit,
                committed,
                identity,
                barrier_id,
                failed,
                now,
            ).0;
            &&& next.cache.entries.contains_key(commit.key)
            &&& next.cache.entries[commit.key].layout.version == committed.version
            &&& next.cache.fresh(commit.key, identity.node_epoch, now)
        }),
{
    let told = node.undelivered(failed);
    let millis = told.lease_millis_since(requested_at);
    let answer = published_answer(commit, committed, identity, millis);
    assert(millis * 1_000_000 <= node.metadata_lease_until - requested_at);
    assert((millis + 1) * 1_000_000 > node.metadata_lease_until - requested_at);
    assert(now < requested_at + millis * 1_000_000);
    assert(crate::current_cache::charge_of(commit.key, answer.layout->0.extents)
        <= commit.key.len() + commit.block_id.len() + commit.checksum.len()) by {
        reveal_with_fuel(crate::current_cache::extents_charge, 2);
        if commit.length > 0 {
            let extents = answer.layout->0.extents;
            assert(extents.drop_last() =~= Seq::empty());
        }
    }
    crate::current_cache::an_answer_is_cached_as_it_came_until_its_lease_ends(
        told.cache,
        (token + 1) as u64,
        commit.key,
        answer,
        requested_at,
        identity.node_epoch,
        now,
        now,
        commit.key,
    );
}

/// What a write puts into the cache is the version that was published, as long as the value, over the
/// block that was written, in this node's epoch, and for no longer than the node itself is kept
/// informed. It puts it there only while the node is informed and if nothing was forgotten since the
/// proposal but by the write itself. It touches nothing else that is cached.
pub proof fn a_write_is_remembered_as_it_was_published(
    node: NodeView,
    commit: ValueCommitView,
    committed: CommitResult,
    identity: IdentityView,
    barrier_id: Option<u64>,
    failed: Seq<u64>,
    now: u64,
    other: Seq<u8>,
    position: int,
)
    ensures
        ({
            let next = node.value_settled(
                commit,
                committed,
                identity,
                barrier_id,
                failed,
                now,
            ).0;
            let entry = next.cache.entries[commit.key];
            &&& next.cache.generation == node.cache.generation
            &&& other != commit.key ==> next.cache.entries.contains_key(other)
                == node.cache.entries.contains_key(other) && next.cache.entries[other]
                == node.cache.entries[other]
            &&& next.cache != node.cache ==> {
                &&& node.metadata_watch_connected && now < node.metadata_lease_until
                &&& commit.cache_refill matches Some((token, _)) && token + 1
                    == node.cache.generation
                &&& next.cache.entries.contains_key(commit.key)
                &&& entry.layout.version == committed.version
                &&& entry.layout.logical_length == commit.length
                &&& entry.node_epoch == identity.node_epoch
                &&& now < entry.expires_at <= node.metadata_lease_until
                &&& 0 <= position < commit.length ==> source_at(entry.layout.extents, position)
                    == Some(
                    (Source::Block {
                        block_id: commit.block_id,
                        offset: position,
                        digest: commit.checksum,
                    }),
                )
                &&& commit.length > 0 ==> entry.block_replicas.len() == 1
                    && entry.block_replicas[0].block_id == commit.block_id
                    && entry.block_replicas[0].length == commit.length
            }
        }),
{
    if let Some((token, requested_at)) = commit.cache_refill {
        let told = node.undelivered(failed);
        let millis = told.lease_millis_since(requested_at);
        let answer = published_answer(commit, committed, identity, millis);
        assert(answer.layout->0.extents.len() <= 1);
        reveal_with_fuel(source_at, 2);
        if node.metadata_lease_until > requested_at {
            assert(millis * 1_000_000 <= node.metadata_lease_until - requested_at);
            assert(crate::current_cache::millis_to_nanos(millis) == millis * 1_000_000);
        }
    }
}

/// While an operation is under way, no value is proposed under its name, by whomever: a repeated
/// operation cannot take the block of the first away. Where nothing else is wrong with the request,
/// it is told to come again.
pub proof fn a_write_under_way_keeps_its_operation_out(
    node: NodeView,
    operation_id: Seq<u8>,
    writer: Option<u64>,
    key: Seq<u8>,
    bytes: Seq<u8>,
    condition: Seq<char>,
    session_id: u64,
    staging_id: u64,
    receipt: ReceiptView,
    now: u64,
)
    requires
        node.under_way(operation_id),
        bytes.len() > 0,
    ensures
        node.written_proposed(writer, key, bytes, operation_id, condition, now) is Err,
        node.staged_proposed(
            session_id,
            key,
            staging_id,
            receipt,
            operation_id,
            condition,
            now,
        ) is Err,
        ({
            let unsound = key_fault(key) is Some || operation_fault(operation_id) is Some
                || !node.has_metadata;
            &&& !unsound && (writer matches Some(session_id) ==> node.sessions.live(session_id)
                && payload_fault(bytes.len() as u64) is None) ==> node.written_proposed(
                writer,
                key,
                bytes,
                operation_id,
                condition,
                now,
            ) == Err::<(NodeView, ValueCommitView), WorkerError>(WorkerError::WorkerUnavailable)
            &&& !unsound && node.sessions.live(session_id) ==> node.staged_proposed(
                session_id,
                key,
                staging_id,
                receipt,
                operation_id,
                condition,
                now,
            ) == Err::<(NodeView, ValueCommitView), WorkerError>(WorkerError::WorkerUnavailable)
        }),
{
}

proof fn lemma_published_value_is_read(
    next: NodeView,
    commit: ValueCommitView,
    bytes: Seq<u8>,
    committed: CommitResult,
    identity: IdentityView,
    ttl_millis: u64,
    session_id: u64,
    read_scope_id: u64,
)
    requires
        commit.length == bytes.len(),
        commit.block_id.len() > 0,
        bytes.len() <= usize::MAX,
        bytes.len() > 0 ==> next.arena.blocks.contains_key(commit.block_id)
            && next.arena.blocks[commit.block_id].length == bytes.len()
            && next.arena.contents.contains_key(next.arena.blocks[commit.block_id].allocation_id)
            && next.arena.block_bytes(commit.block_id) == bytes,
        next.sessions.live(session_id),
        !next.retirements.blocks_new_reads(commit.block_id, read_scope_id),
        next.imports.failure(commit.block_id, read_scope_id) is None,
        !next.imports.flights.contains_key(commit.block_id),
    ensures
        next.materialized(
            session_id,
            read_scope_id,
            published_answer(commit, committed, identity, ttl_millis),
        ) == Ok::<crate::node_read::MaterializeView, WorkerError>(
            crate::node_read::MaterializeView::Ready { version: committed.version, bytes },
        ),
{
    let answer = published_answer(commit, committed, identity, ttl_millis);
    let layout = answer.layout->0;
    let sets = answer.block_replicas;
    if bytes.len() == 0 {
        assert(crate::read_plan::gathered(
            next.arena,
            next.planned(read_scope_id, layout.extents, sets, 0, 0)->Ok_0.0,
        ) =~= bytes);
    } else {
        assert(layout.extents.drop_last() =~= Seq::empty());
        assert(crate::version_layout::run_end(0, layout.extents.drop_last()) == Ok::<
            int,
            WorkerError,
        >(0));
        assert(crate::version_layout::run_end(0, layout.extents) == Ok::<int, WorkerError>(
            bytes.len() as int,
        ));
        let first = next.planned(
            read_scope_id,
            layout.extents.drop_last(),
            sets,
            0,
            bytes.len() as int,
        );
        assert(first->Ok_0.0 =~= Seq::empty());
        let (parts, missing) = next.planned(
            read_scope_id,
            layout.extents,
            sets,
            0,
            bytes.len() as int,
        )->Ok_0;
        assert(parts.len() == 1);
        assert(parts.drop_last() =~= Seq::empty());
        assert(bytes.subrange(0, bytes.len() as int) =~= bytes);
        assert(crate::read_plan::gathered(next.arena, parts.drop_last()) =~= Seq::empty());
        assert(crate::read_plan::gathered(next.arena, parts) =~= bytes);
    }
}

/// A value that a client or the node itself wrote reads back as the bytes that were written, whoever
/// resolves it to the version that was published, as long as its block is not being retired or
/// imported. Where the operation was carried out before, its block holds these bytes already.
pub proof fn a_written_value_reads_back(
    node: NodeView,
    writer: Option<u64>,
    key: Seq<u8>,
    bytes: Seq<u8>,
    operation_id: Seq<u8>,
    condition: Seq<char>,
    committed: CommitResult,
    identity: IdentityView,
    ttl_millis: u64,
    session_id: u64,
    read_scope_id: u64,
    now: u64,
)
    requires
        node.wf(),
        node.written_proposed(writer, key, bytes, operation_id, condition, now) is Ok,
        bytes.len() > 0 && node.arena.blocks.contains_key(block_name(node.node_id, operation_id))
            ==> node.arena.block_bytes(block_name(node.node_id, operation_id)) == bytes,
        block_name(node.node_id, operation_id).len() > 0,
        bytes.len() <= usize::MAX,
        node.sessions.live(session_id),
        !node.retirements.blocks_new_reads(block_name(node.node_id, operation_id), read_scope_id),
        node.imports.failure(block_name(node.node_id, operation_id), read_scope_id) is None,
        !node.imports.flights.contains_key(block_name(node.node_id, operation_id)),
    ensures
        ({
            let (pending, commit) = node.written_proposed(
                writer,
                key,
                bytes,
                operation_id,
                condition,
                now,
            )->Ok_0;
            let next = pending.block_published(commit.block_id, committed.version);
            next.materialized(
                session_id,
                read_scope_id,
                published_answer(commit, committed, identity, ttl_millis),
            ) == Ok::<crate::node_read::MaterializeView, WorkerError>(
                crate::node_read::MaterializeView::Ready { version: committed.version, bytes },
            )
        }),
{
    let (pending, commit) = node.written_proposed(
        writer,
        key,
        bytes,
        operation_id,
        condition,
        now,
    )->Ok_0;
    let next = pending.block_published(commit.block_id, committed.version);
    if node.arena.blocks.contains_key(commit.block_id) {
        assert(node.arena.block_wf(commit.block_id));
    }
    lemma_published_value_is_read(
        next,
        commit,
        bytes,
        committed,
        identity,
        ttl_millis,
        session_id,
        read_scope_id,
    );
}

/// A value that a client staged reads back as the bytes that were staged, whoever resolves it to the
/// version that was published, as long as its block is not being retired or imported. Where the
/// operation was carried out before, its block holds these bytes already.
pub proof fn a_staged_value_reads_back(
    node: NodeView,
    writer: u64,
    key: Seq<u8>,
    staging_id: u64,
    receipt: ReceiptView,
    operation_id: Seq<u8>,
    condition: Seq<char>,
    committed: CommitResult,
    identity: IdentityView,
    ttl_millis: u64,
    session_id: u64,
    read_scope_id: u64,
    now: u64,
)
    requires
        node.wf(),
        node.staged_proposed(
            writer,
            key,
            staging_id,
            receipt,
            operation_id,
            condition,
            now,
        ) is Ok,
        node.arena.blocks.contains_key(block_name(node.node_id, operation_id))
            ==> Some(node.arena.block_bytes(block_name(node.node_id, operation_id)))
            == node.arena.stagings[staging_id].payload,
        block_name(node.node_id, operation_id).len() > 0,
        receipt.length <= usize::MAX,
        node.sessions.live(session_id),
        !node.retirements.blocks_new_reads(block_name(node.node_id, operation_id), read_scope_id),
        node.imports.failure(block_name(node.node_id, operation_id), read_scope_id) is None,
        !node.imports.flights.contains_key(block_name(node.node_id, operation_id)),
    ensures
        ({
            let (pending, commit) = node.staged_proposed(
                writer,
                key,
                staging_id,
                receipt,
                operation_id,
                condition,
                now,
            )->Ok_0;
            let next = pending.block_published(commit.block_id, committed.version);
            next.materialized(
                session_id,
                read_scope_id,
                published_answer(commit, committed, identity, ttl_millis),
            ) == Ok::<crate::node_read::MaterializeView, WorkerError>(
                crate::node_read::MaterializeView::Ready {
                    version: committed.version,
                    bytes: node.arena.stagings[staging_id].payload->0,
                },
            )
        }),
{
    let (pending, commit) = node.staged_proposed(
        writer,
        key,
        staging_id,
        receipt,
        operation_id,
        condition,
        now,
    )->Ok_0;
    let next = pending.block_published(commit.block_id, committed.version);
    if node.arena.blocks.contains_key(commit.block_id) {
        assert(node.arena.block_wf(commit.block_id));
    }
    lemma_published_value_is_read(
        next,
        commit,
        node.arena.stagings[staging_id].payload->0,
        committed,
        identity,
        ttl_millis,
        session_id,
        read_scope_id,
    );
}

impl NodeState {
    /// Says whether the node will own a block that it makes for a write, or why it cannot make it.
    pub fn check_block_preparation(&self, block_id: &Vec<u8>) -> (owns: Result<bool, WorkerError>)
        ensures
            match owns {
                Ok(owns) => self@.preparation_fault(block_id@) is None && owns
                    == !self@.arena.blocks.contains_key(block_id@),
                Err(error) => self@.preparation_fault(block_id@) == Some(error),
            },
    {
        if !self.has_metadata {
            return Err(WorkerError::MetadataUnavailable);
        }
        if self.pending_blocks.contains(block_id) {
            return Err(WorkerError::WorkerUnavailable);
        }
        Ok(self.arena.open_read(block_id, None).is_err())
    }

    /// Ends the write of a block.
    pub fn finish_block_preparation(&mut self, block_id: &Vec<u8>, rejected: bool)
        requires
            old(self)@.wf(),
        ensures
            final(self)@.wf(),
            final(self)@ == old(self)@.preparation_ended(block_id@, rejected),
    {
        let ghost before = self@;
        match self.pending_blocks.remove(block_id) {
            Some(owned) => {
                if owned && rejected {
                    self.arena.retire_block(block_id);
                }
            },
            None => {
                assert(before.pending_blocks.remove(block_id@) =~= before.pending_blocks);
            },
        }
    }

    /// Proposes a value that is in a block.
    fn commit_block(
        &self,
        cache_session_id: Option<u64>,
        key: Vec<u8>,
        block_id: Vec<u8>,
        length: u64,
        checksum: Vec<u8>,
        operation_id: Vec<u8>,
        condition: String,
        now: u64,
    ) -> (proposed: Result<ValueCommit, WorkerError>)
        ensures
            match proposed {
                Ok(commit) => self@.has_metadata && commit@ == (ValueCommitView {
                    cache_session_id,
                    key: key@,
                    block_id: block_id@,
                    length,
                    checksum: checksum@,
                    operation_id: operation_id@,
                    condition: condition@,
                    cache_refill: self@.refill_mark(now),
                }),
                Err(error) => !self@.has_metadata && error is MetadataUnavailable,
            },
    {
        if !self.has_metadata {
            return Err(WorkerError::MetadataUnavailable);
        }
        let cache_refill: Option<(u64, u64)> = match self.current_cache.token() {
            Some(token) => Some((token, now)),
            None => None,
        };
        Ok(
            ValueCommit {
                cache_session_id,
                key,
                block_id,
                length,
                checksum,
                operation_id,
                condition,
                cache_refill,
            },
        )
    }

    fn propose_bytes(
        &mut self,
        session_id: Option<u64>,
        key: Vec<u8>,
        bytes: Vec<u8>,
        operation_id: Vec<u8>,
        condition: String,
        now: u64,
    ) -> (proposed: Result<ValueCommit, WorkerError>)
        requires
            old(self)@.wf(),
        ensures
            final(self)@.wf(),
            proposal_made(
                old(self)@,
                final(self)@,
                old(self)@.bytes_proposed(
                    session_id,
                    key@,
                    bytes@,
                    operation_id@,
                    condition@,
                    now,
                ),
                proposed,
            ),
    {
        let block_id: Vec<u8> = block_identity(self.node_id.as_str(), &operation_id);
        let length: u64 = bytes.len() as u64;
        let checksum: Vec<u8> = digest(&bytes);
        if bytes.len() > 0 {
            let owns_block: bool = match self.check_block_preparation(&block_id) {
                Ok(owns) => owns,
                Err(error) => return Err(error),
            };
            match self.arena.commit_inline_with_verified_digest(
                copy_bytes(&block_id),
                bytes,
                copy_bytes(&checksum),
            ) {
                Ok(_) => {},
                Err(error) => return Err(map_arena_error(error)),
            }
            self.pending_blocks.insert(copy_bytes(&block_id), owns_block);
        }
        self.commit_block(
            session_id,
            key,
            block_id,
            length,
            checksum,
            operation_id,
            condition,
            now,
        )
    }

    /// Proposes a value that a session sent along.
    pub fn commit_bytes(
        &mut self,
        session_id: u64,
        key: Vec<u8>,
        bytes: Vec<u8>,
        operation_id: Vec<u8>,
        condition: String,
        now: u64,
    ) -> (proposed: Result<ValueCommit, WorkerError>)
        requires
            old(self)@.wf(),
        ensures
            final(self)@.wf(),
            proposal_made(
                old(self)@,
                final(self)@,
                old(self)@.inline_proposed(
                    session_id,
                    key@,
                    bytes@,
                    operation_id@,
                    condition@,
                    now,
                ),
                proposed,
            ),
    {
        match validate_user_key(&key) {
            Ok(_) => {},
            Err(error) => return Err(error),
        }
        match validate_operation_id(&operation_id) {
            Ok(_) => {},
            Err(error) => return Err(error),
        }
        match validate_grpc_payload_bytes(bytes.len() as u64) {
            Ok(_) => {},
            Err(error) => return Err(error),
        }
        match self.sessions.live_session(session_id) {
            Ok(_) => {},
            Err(error) => return Err(error),
        }
        self.propose_bytes(Some(session_id), key, bytes, operation_id, condition, now)
    }

    /// Proposes a value of the node's own. It may be longer than what one message can carry.
    pub fn commit_bytes_for_data_core(
        &mut self,
        key: Vec<u8>,
        bytes: Vec<u8>,
        operation_id: Vec<u8>,
        condition: String,
        now: u64,
    ) -> (proposed: Result<ValueCommit, WorkerError>)
        requires
            old(self)@.wf(),
        ensures
            final(self)@.wf(),
            proposal_made(
                old(self)@,
                final(self)@,
                old(self)@.own_proposed(key@, bytes@, operation_id@, condition@, now),
                proposed,
            ),
    {
        match validate_user_key(&key) {
            Ok(_) => {},
            Err(error) => return Err(error),
        }
        match validate_operation_id(&operation_id) {
            Ok(_) => {},
            Err(error) => return Err(error),
        }
        self.propose_bytes(None, key, bytes, operation_id, condition, now)
    }

    /// Proposes a value that a session staged.
    pub fn set(
        &mut self,
        session_id: u64,
        key: Vec<u8>,
        staging_id: u64,
        receipt: &HostReceipt,
        operation_id: Vec<u8>,
        condition: String,
        now: u64,
    ) -> (proposed: Result<ValueCommit, WorkerError>)
        requires
            old(self)@.wf(),
        ensures
            final(self)@.wf(),
            proposal_made(
                old(self)@,
                final(self)@,
                old(self)@.staged_proposed(
                    session_id,
                    key@,
                    staging_id,
                    receipt@,
                    operation_id@,
                    condition@,
                    now,
                ),
                proposed,
            ),
    {
        match validate_user_key(&key) {
            Ok(_) => {},
            Err(error) => return Err(error),
        }
        match validate_operation_id(&operation_id) {
            Ok(_) => {},
            Err(error) => return Err(error),
        }
        let counted: HostReceipt = match self.receipt_for_session(session_id, receipt) {
            Ok(counted) => counted,
            Err(error) => return Err(error),
        };
        let block_id: Vec<u8> = block_identity(self.node_id.as_str(), &operation_id);
        let owns_block: bool = match self.check_block_preparation(&block_id) {
            Ok(owns) => owns,
            Err(error) => return Err(error),
        };
        match self.arena.commit_staging(session_id, staging_id, &counted, copy_bytes(&block_id)) {
            Ok(_) => {},
            Err(error) => {
                return Err(map_arena_error(error));
            },
        }
        self.pending_blocks.insert(copy_bytes(&block_id), owns_block);
        self.commit_block(
            Some(session_id),
            key,
            block_id,
            counted.length,
            counted.digest,
            operation_id,
            condition,
            now,
        )
    }

    /// Takes what the metadata service says of a block that was proposed with a key. Where it was
    /// published, the clients have to be told: the caller sends the deliveries and goes on with
    /// those that failed.
    pub fn publish_block(
        &mut self,
        key: &Vec<u8>,
        block_id: &Vec<u8>,
        committed: Result<u64, DmsError>,
        now: u64,
    ) -> (published: Result<Broadcast, WorkerError>)
        requires
            old(self)@.wf(),
            old(self)@.can_broadcast(),
        ensures
            final(self)@.wf(),
            block_announced(
                old(self)@,
                final(self)@,
                key@,
                block_id@,
                committed,
                now,
                published,
            ),
    {
        let rejected: bool = match &committed {
            Ok(_) => false,
            Err(error) => is_definitive_metadata_rejection(error),
        };
        self.finish_block_preparation(block_id, rejected);
        let version: u64 = match committed {
            Ok(version) => version,
            Err(error) => return Err(map_metadata_error(error)),
        };
        self.arena.mark_committed(block_id, version);
        Ok(self.broadcast_invalidation(key, version, now))
    }

    /// Offers a value that was just published to the cache.
    fn cache_committed_value(
        &mut self,
        token: u64,
        requested_at: u64,
        commit: &ValueCommit,
        committed: CommitResult,
        identity: &LocalReplicaIdentity,
        now: u64,
    )
        requires
            old(self)@.wf(),
        ensures
            final(self)@.wf(),
            final(self)@ == old(self)@.written_through(
                token,
                requested_at,
                commit@,
                committed,
                identity@,
                now,
            ),
    {
        if !self.metadata_watch_connected || now >= self.metadata_lease_until {
            return;
        }
        let ttl_millis: u64 = if self.metadata_lease_until <= requested_at {
            0
        } else {
            (self.metadata_lease_until - requested_at) / NANOS_PER_MILLI
        };
        if ttl_millis == 0 {
            return;
        }
        let answer: ResolveObjectResponse = describe_published(
            commit,
            committed,
            identity,
            ttl_millis,
        );
        self.current_cache.insert(
            token,
            copy_bytes(&commit.key),
            &answer,
            requested_at,
            identity.node_epoch,
            now,
        );
    }

    /// Ends a write of a value that was published, after the clients were told of it, but for
    /// those that could not be.
    pub fn settle_value(
        &mut self,
        commit: ValueCommit,
        committed: CommitResult,
        identity: &LocalReplicaIdentity,
        barrier_id: Option<u64>,
        failed: &Vec<u64>,
        now: u64,
    ) -> (outcome: Result<SetOutcome, WorkerError>)
        requires
            old(self)@.wf(),
        ensures
            final(self)@.wf(),
            (final(self)@, outcome) == old(self)@.value_settled(
                commit@,
                committed,
                identity@,
                barrier_id,
                failed@,
                now,
            ),
    {
        self.delivery_failed(failed);
        if let Some((token, requested_at)) = commit.cache_refill {
            if token < u64::MAX && self.current_cache.token() == Some(token + 1) {
                self.cache_committed_value(
                    token + 1,
                    requested_at,
                    &commit,
                    committed,
                    identity,
                    now,
                );
            }
        }
        if let Some(session_id) = commit.cache_session_id {
            match self.sessions.register_cache_interest(session_id, &commit.key) {
                Ok(_) => {},
                Err(error) => return Err(error),
            }
        }
        Ok(SetOutcome { version: committed.version, length: commit.length, barrier_id })
    }
}

/// What the metadata service would say of a value that was just published.
fn describe_published(
    commit: &ValueCommit,
    committed: CommitResult,
    identity: &LocalReplicaIdentity,
    ttl_millis: u64,
) -> (answer: ResolveObjectResponse)
    ensures
        answer@ == published_answer(commit@, committed, identity@, ttl_millis),
{
    let mut extents: Vec<ExtentRecord> = Vec::new();
    let mut block_replicas: Vec<BlockReplicaSet> = Vec::new();
    if commit.length > 0 {
        extents.push(
            data_extent(
                0,
                commit.length,
                copy_bytes(&commit.block_id),
                0,
                copy_bytes(&commit.checksum),
            ),
        );
        let mut replicas: Vec<ReplicaLocation> = Vec::new();
        replicas.push(
            ReplicaLocation {
                block_id: copy_bytes(&commit.block_id),
                node_id: identity.node_id,
                node_epoch: identity.node_epoch,
                data_endpoint: identity.data_endpoint.clone(),
                checksum: copy_bytes(&commit.checksum),
                durability: DurabilityPolicy::LocalMemory,
            },
        );
        let mut proofs: Vec<ReplicaProof> = Vec::new();
        proofs.push(
            ReplicaProof {
                block_id: copy_bytes(&commit.block_id),
                node_id: identity.node_id,
                node_epoch: identity.node_epoch,
                catalog_revision: committed.revision,
                checksum: copy_bytes(&commit.checksum),
                durability: DurabilityPolicy::LocalMemory,
            },
        );
        proof {
            let set = published_answer(commit@, committed, identity@, ttl_millis).block_replicas[0];
            assert(views(replicas@) =~= set.replicas);
            assert(views(proofs@) =~= set.proofs);
        }
        block_replicas.push(
            BlockReplicaSet {
                block_id: copy_bytes(&commit.block_id),
                replicas,
                length: commit.length,
                proofs,
            },
        );
    }
    proof {
        let answer = published_answer(commit@, committed, identity@, ttl_millis);
        assert(views(extents@) =~= answer.layout->0.extents);
        assert(views(block_replicas@) =~= answer.block_replicas);
    }
    ResolveObjectResponse {
        layout: Some(
            VersionLayout {
                version: committed.version,
                logical_length: commit.length,
                extents,
                digest: copy_bytes(&commit.checksum),
                kind: VersionKind::Value,
            },
        ),
        block_replicas,
        current_lease: Some(
            CurrentLeaseGrant {
                version: committed.version,
                revision: committed.revision,
                lease_epoch: identity.node_epoch,
                ttl_millis,
                leader_epoch: 0,
            },
        ),
    }
}

/// Whether a proposal was made as it should be, with the state after it. A proposal that cannot be
/// made changes nothing.
pub open spec fn proposal_made(
    before: NodeView,
    after: NodeView,
    expected: Result<(NodeView, ValueCommitView), WorkerError>,
    proposed: Result<ValueCommit, WorkerError>,
) -> bool {
    match (expected, proposed) {
        (Ok((next, commit)), Ok(got)) => after == next && got@ == commit,
        (Err(error), Err(got)) => after == before && got == error,
        _ => false,
    }
}

/// What the word of the metadata service on a block does, and what comes of it.
pub open spec fn block_announced(
    before: NodeView,
    after: NodeView,
    key: Seq<u8>,
    block_id: Seq<u8>,
    committed: Result<u64, DmsError>,
    now: u64,
    published: Result<Broadcast, WorkerError>,
) -> bool {
    match committed {
        Err(error) => {
            &&& after == before.preparation_ended(block_id, proves_unpublished(error))
            &&& published matches Err(got) && got == WorkerError::Stable(error)
        },
        Ok(version) => {
            let told = before.block_published(block_id, version);
            &&& after == told.broadcast(key, version, now)
            &&& published matches Ok(sent) && told.announced(key, version, now, sent)
        },
    }
}

impl NodeView {
    /// Whether a broadcast says what it should.
    pub open spec fn announced(self, key: Seq<u8>, version: u64, now: u64, sent: Broadcast) -> bool {
        &&& self.sessions.finishes(self.sessions.expiry_change(now), sent.waiters@)
        &&& broadcast_sent(self, key, version, now, sent)
    }
}

} // verus!
