//! The requests that the owner of the node takes, and the names under which they are counted.
use crate::arena::{FileSpaceConsumption, HostReceipt, ReleasedWriteAllocation};
use crate::data_core_read::CacheRefill;
use crate::layout_write::SetRangeInput;
use crate::limits::BatchEntry;
use crate::namespace::{DirectoryVersion, InodeVersion, RemovedDentry, ResolvedEntry};
use crate::node_space::ConfigChange;
use crate::payload::Payload;
use crate::peer_import::PeerPullSpec;
use crate::protocol::{PreparedObjectVersion, ResolveObjectResponse};
use vstd::prelude::*;

verus! {

/// A request to the node.
#[allow(inconsistent_fields)]
pub enum NodeCommand {
    OpenSession { shared_memory: bool, supports_write_lease_release: bool },
    AttachSession { session_id: u64 },
    Heartbeat {
        session_id: u64,
        released_view_through: Option<u64>,
        released_write_allocations: Vec<ReleasedWriteAllocation>,
        finished_read_request_through: Option<u64>,
        renew_cache: bool,
        /// Whether the stream of events to the client is closed.
        stream_closed: bool,
    },
    MetadataLease { valid_until: Option<u64>, watch_connected: Option<bool> },
    ResourceSummary,
    CloseSession { session_id: u64 },
    ValidateSession { session_id: u64 },
    Acknowledge { session_id: u64, sequence: u64 },
    AllocateStaging { session_id: u64, length: u64, release_token: Vec<u8> },
    AcquireRegion { session_id: u64, region_id: u64 },
    DeleteStaging { session_id: u64, staging_id: u64 },
    ConsumeStaging { session_id: u64, staging_id: u64, receipt: HostReceipt },
    Upload { transfer_id: u64, bytes: Vec<u8> },
    /// The bytes that a client wrote to shared memory for what it staged.
    FillMapped { transfer_id: u64, bytes: Vec<u8> },
    SetValue {
        session_id: u64,
        key: Vec<u8>,
        staging_id: u64,
        receipt: HostReceipt,
        operation_id: Vec<u8>,
        condition: String,
    },
    MSet { session_id: u64, entries: Vec<BatchEntry>, operation_id: Vec<u8> },
    SetInline {
        session_id: u64,
        key: Vec<u8>,
        bytes: Vec<u8>,
        operation_id: Vec<u8>,
        condition: String,
    },
    DataCoreSetInline {
        key: Vec<u8>,
        bytes: Vec<u8>,
        operation_id: Vec<u8>,
        condition: String,
    },
    DataCorePrepareRange {
        key: Vec<u8>,
        offset: u64,
        bytes: Vec<u8>,
        operation_id: Vec<u8>,
        resolved: ResolveObjectResponse,
    },
    DataCorePrepareSparse {
        key: Vec<u8>,
        logical_length: u64,
        offset: u64,
        bytes: Vec<u8>,
        operation_id: Vec<u8>,
        expected_version: Option<u64>,
    },
    DataCorePrepareTruncate {
        key: Vec<u8>,
        new_length: u64,
        operation_id: Vec<u8>,
        resolved: ResolveObjectResponse,
    },
    DataCorePreparePunchHole {
        key: Vec<u8>,
        offset: u64,
        length: u64,
        operation_id: Vec<u8>,
        resolved: ResolveObjectResponse,
    },
    DataCoreReserveFileSpace { reservation_id: Vec<u8>, length: u64 },
    DataCoreConsumeFileSpace { ranges: Vec<(Vec<u8>, u64)> },
    DataCoreRestoreFileSpace { consumptions: Vec<FileSpaceConsumption> },
    DataCoreReleaseFileSpace { ranges: Vec<(Vec<u8>, u64)> },
    DataCoreFinishPrepared {
        prepared: PreparedObjectVersion,
        version: Option<u64>,
        rejected: bool,
    },
    DataCoreSetRangeInline {
        key: Vec<u8>,
        offset: u64,
        bytes: Vec<u8>,
        operation_id: Vec<u8>,
        resolved: ResolveObjectResponse,
    },
    SetRange { input: SetRangeInput, resolved: ResolveObjectResponse },
    Delete { session_id: u64, key: Vec<u8>, operation_id: Vec<u8> },
    DataCoreDelete { key: Vec<u8>, operation_id: Vec<u8> },
    GetResolved {
        session_id: u64,
        read_scope_id: u64,
        read_request_id: u64,
        resolved: ResolveObjectResponse,
        range: Option<(u64, u64)>,
        clamp_range: bool,
        max_inline_bytes: u64,
        cache_refill: Option<CacheRefill>,
    },
    GetCached {
        session_id: u64,
        read_scope_id: u64,
        read_request_id: u64,
        key: Vec<u8>,
        node_epoch: u64,
        range: Option<(u64, u64)>,
        clamp_range: bool,
        max_inline_bytes: u64,
    },
    MaterializeResolved {
        session_id: u64,
        read_scope_id: u64,
        resolved: ResolveObjectResponse,
    },
    DataCoreMaterializeInto {
        read_scope_id: u64,
        resolved: ResolveObjectResponse,
        range: Option<(u64, u64)>,
        clamp_range: bool,
        output: Vec<u8>,
        cache_refill: Option<CacheRefill>,
        prefetch_full_layout: bool,
    },
    PlanFilesystemPeerPrefetch { read_scope_id: u64, resolved: Vec<ResolveObjectResponse> },
    DataCoreGetCached {
        read_scope_id: u64,
        key: Vec<u8>,
        node_epoch: u64,
        exact_version: Option<u64>,
        range: Option<(u64, u64)>,
        clamp_range: bool,
        output: Vec<u8>,
    },
    ImportPeerBlock {
        block_id: Vec<u8>,
        bytes: Payload,
        checksum: Vec<u8>,
        length: u64,
        read_scope_id: u64,
        import_attempt: Option<u64>,
    },
    /// Each block comes with who waits for it.
    EnsurePeerBlocks { read_scope_id: u64, requests: Vec<(PeerPullSpec, u64)> },
    Download { transfer_id: u64 },
    PeerProbe { source_node_id: String, nonce: Vec<u8> },
    PeerPullBlock { source_node_id: String, block_id: Vec<u8>, range: Option<(u64, u64)> },
    PrepareReplica {
        plan_id: Vec<u8>,
        block_id: Vec<u8>,
        bytes: Vec<u8>,
        checksum: Vec<u8>,
        length: u64,
    },
    ActivateReplica { plan_id: Vec<u8> },
    AbortReplica { plan_id: Vec<u8> },
    DiscardReplicaAttempt { plan_id: Vec<u8> },
    ReplicaStatus { plan_id: Vec<u8> },
    InvalidateCurrent { key: Vec<u8>, minimum_version: u64 },
    InvalidateFilesystemBinding {
        inode: u64,
        through_generation: u64,
        minimum_inode_revision: u64,
    },
    FilesystemGetBinding { inode: u64 },
    FilesystemCacheBinding { inode: u64 },
    FilesystemGetDentry { parent: u64, name: Vec<u8> },
    FilesystemCacheNegativeDentry { parent: u64, name: Vec<u8> },
    FilesystemApplyLocalNamespaceMutation {
        changed_directories: Vec<DirectoryVersion>,
        changed_inodes: Vec<InodeVersion>,
        removed_dentries: Vec<RemovedDentry>,
        /// How many directories came along.
        refreshed_directories: usize,
    },
    FilesystemInstallResolvedDentry { resolved: ResolvedEntry, apply_directory_mutation: bool },
    FilesystemGetDirectoryPage { directory: u64 },
    FilesystemCacheDirectoryPage { directory: u64 },
    FilesystemOpenHandleWithReference { inode: u64 },
    FilesystemGetHandle { handle: u64 },
    /// The inode is that of the handle, if there is such a handle.
    FilesystemCloseHandleWithReference { inode: Option<u64> },
    FilesystemAcquireInodeReference { inode: u64 },
    FilesystemReleaseInodeReference { inode: u64, count: u64 },
    FilesystemMarkInodeOrphan { inode: u64 },
    FilesystemInstallInodeReference { inode: u64, generation: u64, lease_millis: u64 },
    FilesystemInodeReferenceSnapshot,
    FilesystemRenewInodeReferenceLeases { references: Vec<(u64, u64)>, lease_millis: u64 },
    FilesystemHasLiveInodeReference { inode: u64 },
    PrepareBlockRetirement { retirement_id: Vec<u8>, block_ids: Vec<Vec<u8>> },
    FinalizeBlockRetirement { retirement_id: Vec<u8>, block_ids: Vec<Vec<u8>> },
    BeginReadScope { session_id: u64 },
    BeginDataCoreReadScope,
    FinishReadScope { scope_id: u64 },
    WaitInvalidation { barrier_id: u64 },
    ApplyConfigChange { change: ConfigChange },
}

/// The names under which requests are counted.
#[derive(Clone, Copy, Debug, PartialEq, Eq, Structural)]
pub enum NodeMailboxCommand {
    OpenSession,
    AttachSession,
    Heartbeat,
    CloseSession,
    ValidateSession,
    Acknowledge,
    AllocateStaging,
    AcquireRegion,
    DeleteStaging,
    ConsumeStaging,
    Upload,
    SetValue,
    MSet,
    SetInline,
    SetRange,
    Delete,
    GetResolved,
    GetCached,
    MaterializeResolved,
    ImportPeerBlock,
    Download,
    PeerProbe,
    PeerPullBlock,
    PrepareReplica,
    ActivateReplica,
    AbortReplica,
    DiscardReplicaAttempt,
    ReplicaStatus,
    InvalidateCurrent,
    WaitInvalidation,
    ApplyConfigChange,
}

/// The name under which a request is counted. Requests that are parts of the same work share one.
pub open spec fn metric_of(command: NodeCommand) -> NodeMailboxCommand {
    match command {
        NodeCommand::OpenSession { .. } => NodeMailboxCommand::OpenSession,
        NodeCommand::AttachSession { .. } => NodeMailboxCommand::AttachSession,
        NodeCommand::Heartbeat { .. }
        | NodeCommand::MetadataLease { .. }
        | NodeCommand::ResourceSummary => NodeMailboxCommand::Heartbeat,
        NodeCommand::CloseSession { .. } => NodeMailboxCommand::CloseSession,
        NodeCommand::ValidateSession { .. } => NodeMailboxCommand::ValidateSession,
        NodeCommand::Acknowledge { .. } => NodeMailboxCommand::Acknowledge,
        NodeCommand::AllocateStaging { .. } => NodeMailboxCommand::AllocateStaging,
        NodeCommand::AcquireRegion { .. } => NodeMailboxCommand::AcquireRegion,
        NodeCommand::DeleteStaging { .. } => NodeMailboxCommand::DeleteStaging,
        NodeCommand::ConsumeStaging { .. } => NodeMailboxCommand::ConsumeStaging,
        NodeCommand::Upload { .. }
        | NodeCommand::FillMapped { .. } => NodeMailboxCommand::Upload,
        NodeCommand::SetValue { .. } => NodeMailboxCommand::SetValue,
        NodeCommand::MSet { .. } => NodeMailboxCommand::MSet,
        NodeCommand::SetInline { .. }
        | NodeCommand::DataCoreSetInline { .. }
        | NodeCommand::DataCoreFinishPrepared { .. } => NodeMailboxCommand::SetInline,
        NodeCommand::DataCorePrepareRange { .. }
        | NodeCommand::DataCorePrepareSparse { .. }
        | NodeCommand::DataCorePrepareTruncate { .. }
        | NodeCommand::DataCorePreparePunchHole { .. }
        | NodeCommand::DataCoreReserveFileSpace { .. }
        | NodeCommand::DataCoreConsumeFileSpace { .. }
        | NodeCommand::DataCoreRestoreFileSpace { .. }
        | NodeCommand::DataCoreReleaseFileSpace { .. }
        | NodeCommand::DataCoreSetRangeInline { .. }
        | NodeCommand::SetRange { .. } => NodeMailboxCommand::SetRange,
        NodeCommand::Delete { .. }
        | NodeCommand::DataCoreDelete { .. } => NodeMailboxCommand::Delete,
        NodeCommand::GetResolved { .. } => NodeMailboxCommand::GetResolved,
        NodeCommand::MaterializeResolved { .. }
        | NodeCommand::DataCoreMaterializeInto { .. }
        | NodeCommand::PlanFilesystemPeerPrefetch { .. } => NodeMailboxCommand::MaterializeResolved,
        NodeCommand::ImportPeerBlock { .. }
        | NodeCommand::EnsurePeerBlocks { .. } => NodeMailboxCommand::ImportPeerBlock,
        NodeCommand::Download { .. } => NodeMailboxCommand::Download,
        NodeCommand::PeerProbe { .. } => NodeMailboxCommand::PeerProbe,
        NodeCommand::PeerPullBlock { .. } => NodeMailboxCommand::PeerPullBlock,
        NodeCommand::PrepareReplica { .. } => NodeMailboxCommand::PrepareReplica,
        NodeCommand::ActivateReplica { .. } => NodeMailboxCommand::ActivateReplica,
        NodeCommand::AbortReplica { .. } => NodeMailboxCommand::AbortReplica,
        NodeCommand::DiscardReplicaAttempt { .. } => NodeMailboxCommand::DiscardReplicaAttempt,
        NodeCommand::ReplicaStatus { .. } => NodeMailboxCommand::ReplicaStatus,
        NodeCommand::InvalidateCurrent { .. }
        | NodeCommand::InvalidateFilesystemBinding { .. }
        | NodeCommand::PrepareBlockRetirement { .. }
        | NodeCommand::FinalizeBlockRetirement { .. } => NodeMailboxCommand::InvalidateCurrent,
        NodeCommand::GetCached { .. }
        | NodeCommand::DataCoreGetCached { .. }
        | NodeCommand::FilesystemGetBinding { .. }
        | NodeCommand::FilesystemCacheBinding { .. }
        | NodeCommand::FilesystemGetDentry { .. }
        | NodeCommand::FilesystemCacheNegativeDentry { .. }
        | NodeCommand::FilesystemApplyLocalNamespaceMutation { .. }
        | NodeCommand::FilesystemInstallResolvedDentry { .. }
        | NodeCommand::FilesystemGetDirectoryPage { .. }
        | NodeCommand::FilesystemCacheDirectoryPage { .. }
        | NodeCommand::FilesystemOpenHandleWithReference { .. }
        | NodeCommand::FilesystemGetHandle { .. }
        | NodeCommand::FilesystemCloseHandleWithReference { .. }
        | NodeCommand::FilesystemAcquireInodeReference { .. }
        | NodeCommand::FilesystemReleaseInodeReference { .. }
        | NodeCommand::FilesystemMarkInodeOrphan { .. }
        | NodeCommand::FilesystemInstallInodeReference { .. }
        | NodeCommand::FilesystemInodeReferenceSnapshot
        | NodeCommand::FilesystemRenewInodeReferenceLeases { .. }
        | NodeCommand::FilesystemHasLiveInodeReference { .. }
        | NodeCommand::BeginReadScope { .. }
        | NodeCommand::BeginDataCoreReadScope
        | NodeCommand::FinishReadScope { .. } => NodeMailboxCommand::GetCached,
        NodeCommand::WaitInvalidation { .. } => NodeMailboxCommand::WaitInvalidation,
        NodeCommand::ApplyConfigChange { .. } => NodeMailboxCommand::ApplyConfigChange,
    }
}

impl NodeCommand {
    /// The name under which the request is counted.
    pub fn metric(&self) -> (name: NodeMailboxCommand)
        ensures
            name == metric_of(*self),
    {
        match self {
            NodeCommand::OpenSession { .. } => NodeMailboxCommand::OpenSession,
            NodeCommand::AttachSession { .. } => NodeMailboxCommand::AttachSession,
            NodeCommand::Heartbeat { .. }
            | NodeCommand::MetadataLease { .. }
            | NodeCommand::ResourceSummary => NodeMailboxCommand::Heartbeat,
            NodeCommand::CloseSession { .. } => NodeMailboxCommand::CloseSession,
            NodeCommand::ValidateSession { .. } => NodeMailboxCommand::ValidateSession,
            NodeCommand::Acknowledge { .. } => NodeMailboxCommand::Acknowledge,
            NodeCommand::AllocateStaging { .. } => NodeMailboxCommand::AllocateStaging,
            NodeCommand::AcquireRegion { .. } => NodeMailboxCommand::AcquireRegion,
            NodeCommand::DeleteStaging { .. } => NodeMailboxCommand::DeleteStaging,
            NodeCommand::ConsumeStaging { .. } => NodeMailboxCommand::ConsumeStaging,
            NodeCommand::Upload { .. }
            | NodeCommand::FillMapped { .. } => NodeMailboxCommand::Upload,
            NodeCommand::SetValue { .. } => NodeMailboxCommand::SetValue,
            NodeCommand::MSet { .. } => NodeMailboxCommand::MSet,
            NodeCommand::SetInline { .. }
            | NodeCommand::DataCoreSetInline { .. }
            | NodeCommand::DataCoreFinishPrepared { .. } => NodeMailboxCommand::SetInline,
            NodeCommand::DataCorePrepareRange { .. }
            | NodeCommand::DataCorePrepareSparse { .. }
            | NodeCommand::DataCorePrepareTruncate { .. }
            | NodeCommand::DataCorePreparePunchHole { .. }
            | NodeCommand::DataCoreReserveFileSpace { .. }
            | NodeCommand::DataCoreConsumeFileSpace { .. }
            | NodeCommand::DataCoreRestoreFileSpace { .. }
            | NodeCommand::DataCoreReleaseFileSpace { .. }
            | NodeCommand::DataCoreSetRangeInline { .. }
            | NodeCommand::SetRange { .. } => NodeMailboxCommand::SetRange,
            NodeCommand::Delete { .. }
            | NodeCommand::DataCoreDelete { .. } => NodeMailboxCommand::Delete,
            NodeCommand::GetResolved { .. } => NodeMailboxCommand::GetResolved,
            NodeCommand::MaterializeResolved { .. }
            | NodeCommand::DataCoreMaterializeInto { .. }
            | NodeCommand::PlanFilesystemPeerPrefetch { .. } => NodeMailboxCommand::MaterializeResolved,
            NodeCommand::ImportPeerBlock { .. }
            | NodeCommand::EnsurePeerBlocks { .. } => NodeMailboxCommand::ImportPeerBlock,
            NodeCommand::Download { .. } => NodeMailboxCommand::Download,
            NodeCommand::PeerProbe { .. } => NodeMailboxCommand::PeerProbe,
            NodeCommand::PeerPullBlock { .. } => NodeMailboxCommand::PeerPullBlock,
            NodeCommand::PrepareReplica { .. } => NodeMailboxCommand::PrepareReplica,
            NodeCommand::ActivateReplica { .. } => NodeMailboxCommand::ActivateReplica,
            NodeCommand::AbortReplica { .. } => NodeMailboxCommand::AbortReplica,
            NodeCommand::DiscardReplicaAttempt { .. } => NodeMailboxCommand::DiscardReplicaAttempt,
            NodeCommand::ReplicaStatus { .. } => NodeMailboxCommand::ReplicaStatus,
            NodeCommand::InvalidateCurrent { .. }
            | NodeCommand::InvalidateFilesystemBinding { .. }
            | NodeCommand::PrepareBlockRetirement { .. }
            | NodeCommand::FinalizeBlockRetirement { .. } => NodeMailboxCommand::InvalidateCurrent,
            NodeCommand::GetCached { .. }
            | NodeCommand::DataCoreGetCached { .. }
            | NodeCommand::FilesystemGetBinding { .. }
            | NodeCommand::FilesystemCacheBinding { .. }
            | NodeCommand::FilesystemGetDentry { .. }
            | NodeCommand::FilesystemCacheNegativeDentry { .. }
            | NodeCommand::FilesystemApplyLocalNamespaceMutation { .. }
            | NodeCommand::FilesystemInstallResolvedDentry { .. }
            | NodeCommand::FilesystemGetDirectoryPage { .. }
            | NodeCommand::FilesystemCacheDirectoryPage { .. }
            | NodeCommand::FilesystemOpenHandleWithReference { .. }
            | NodeCommand::FilesystemGetHandle { .. }
            | NodeCommand::FilesystemCloseHandleWithReference { .. }
            | NodeCommand::FilesystemAcquireInodeReference { .. }
            | NodeCommand::FilesystemReleaseInodeReference { .. }
            | NodeCommand::FilesystemMarkInodeOrphan { .. }
            | NodeCommand::FilesystemInstallInodeReference { .. }
            | NodeCommand::FilesystemInodeReferenceSnapshot
            | NodeCommand::FilesystemRenewInodeReferenceLeases { .. }
            | NodeCommand::FilesystemHasLiveInodeReference { .. }
            | NodeCommand::BeginReadScope { .. }
            | NodeCommand::BeginDataCoreReadScope
            | NodeCommand::FinishReadScope { .. } => NodeMailboxCommand::GetCached,
            NodeCommand::WaitInvalidation { .. } => NodeMailboxCommand::WaitInvalidation,
            NodeCommand::ApplyConfigChange { .. } => NodeMailboxCommand::ApplyConfigChange,
        }
    }
}

} // verus!
