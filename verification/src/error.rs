//! The node's errors, and how one kind of error turns into another.
use vstd::prelude::*;

verus! {

/// The stable codes that callers see.
#[derive(Clone, Copy, Debug, PartialEq, Eq, Structural)]
pub enum ErrorCode {
    MetaCatalogInvalidRequest,
    MetaCatalogNotFound,
    MetaCatalogVersionConflict,
    MetaJournalAppendFailed,
    MetaJournalUnavailable,
    NodeArenaAccessDenied,
    NodeArenaAllocationFailed,
    NodeArenaCapacityExhausted,
    NodeArenaInvalidRequest,
    NodeArenaShmUnavailable,
    NodeArenaStaleHandle,
    NodeMetadataUnavailable,
    NodeObjectNotFound,
    NodeObjectUnavailable,
    NodeSessionUnknown,
    NodeTransferUnavailable,
    NodeVersionConflict,
    NodeWorkerInvalidRequest,
    NodeWorkerUnavailable,
    /// A code that the node passes on without reading it.
    Other(u32),
}

/// The class of an error.
#[derive(Clone, Copy, Debug, PartialEq, Eq, Structural)]
pub enum ErrorKind {
    InvalidArgument,
    Unauthenticated,
    PermissionDenied,
    NotFound,
    FailedPrecondition,
    Aborted,
    ResourceExhausted,
    Unavailable,
    DataLoss,
    Internal,
}

/// An error with a stable code.
#[derive(Debug, PartialEq, Eq)]
pub struct DmsError {
    pub code: ErrorCode,
    pub kind: ErrorKind,
    pub message: String,
}

/// What went wrong with a request to the node.
#[derive(Debug, PartialEq, Eq)]
pub enum WorkerError {
    InvalidArgument(&'static str),
    UnknownSession,
    UnknownStaging,
    UnknownTransfer,
    NotFound,
    NoLiveReplica,
    Conflict,
    ResourceExhausted,
    WorkerUnavailable,
    MetadataUnavailable,
    TransferUnavailable,
    ArenaInvalidRequest,
    ArenaStaleHandle,
    ArenaShmUnavailable,
    ArenaAccessDenied,
    Stable(DmsError),
}

/// What went wrong in the memory arena.
#[derive(Clone, Copy, Debug, PartialEq, Eq, Structural)]
pub enum ArenaError {
    UnknownTransfer,
    UnknownStaging,
    StagingNotWritable,
    ReceiptConflict,
    ReservationConflict,
    StaleHandle,
    UnknownRegion,
    SharedMemoryUnavailable,
    RegionAccessDenied,
    RegionCreateFailed,
    CapacityExhausted,
    EmptyPayload,
    UnknownBlock,
    UnknownReservation,
    LengthMismatch,
    RangeOutOfBounds,
    RegionOverflow,
}

/// The code under which an error leaves the node.
pub open spec fn wire_code(error: WorkerError) -> ErrorCode {
    match error {
        WorkerError::InvalidArgument(_) => ErrorCode::NodeWorkerInvalidRequest,
        WorkerError::ArenaInvalidRequest => ErrorCode::NodeArenaInvalidRequest,
        WorkerError::UnknownSession => ErrorCode::NodeSessionUnknown,
        WorkerError::UnknownStaging | WorkerError::UnknownTransfer | WorkerError::NotFound =>
            ErrorCode::NodeObjectNotFound,
        WorkerError::NoLiveReplica => ErrorCode::NodeObjectUnavailable,
        WorkerError::Conflict => ErrorCode::NodeVersionConflict,
        WorkerError::ResourceExhausted => ErrorCode::NodeArenaCapacityExhausted,
        WorkerError::WorkerUnavailable => ErrorCode::NodeWorkerUnavailable,
        WorkerError::MetadataUnavailable => ErrorCode::NodeMetadataUnavailable,
        WorkerError::TransferUnavailable => ErrorCode::NodeTransferUnavailable,
        WorkerError::ArenaStaleHandle => ErrorCode::NodeArenaStaleHandle,
        WorkerError::ArenaShmUnavailable => ErrorCode::NodeArenaShmUnavailable,
        WorkerError::ArenaAccessDenied => ErrorCode::NodeArenaAccessDenied,
        WorkerError::Stable(error) => error.code,
    }
}

/// The class under which an error leaves the node.
pub open spec fn wire_kind(error: WorkerError) -> ErrorKind {
    match error {
        WorkerError::InvalidArgument(_) | WorkerError::ArenaInvalidRequest =>
            ErrorKind::InvalidArgument,
        WorkerError::UnknownSession => ErrorKind::Unauthenticated,
        WorkerError::UnknownStaging | WorkerError::UnknownTransfer | WorkerError::NotFound =>
            ErrorKind::NotFound,
        WorkerError::Conflict => ErrorKind::FailedPrecondition,
        WorkerError::ResourceExhausted => ErrorKind::ResourceExhausted,
        WorkerError::NoLiveReplica
        | WorkerError::WorkerUnavailable
        | WorkerError::MetadataUnavailable
        | WorkerError::TransferUnavailable
        | WorkerError::ArenaStaleHandle
        | WorkerError::ArenaShmUnavailable => ErrorKind::Unavailable,
        WorkerError::ArenaAccessDenied => ErrorKind::PermissionDenied,
        WorkerError::Stable(error) => error.kind,
    }
}

/// The text with which an error leaves the node.
pub open spec fn wire_message(error: WorkerError) -> Seq<char> {
    match error {
        WorkerError::InvalidArgument(reason) => reason@,
        WorkerError::ArenaInvalidRequest => "invalid DMS Arena request"@,
        WorkerError::UnknownSession => "unknown DMS session"@,
        WorkerError::UnknownStaging | WorkerError::UnknownTransfer | WorkerError::NotFound =>
            "DMS resource not found"@,
        WorkerError::NoLiveReplica =>
            "DMS object version exists, but no live replica can serve the required block"@,
        WorkerError::Conflict => "DMS staging or version conflict"@,
        WorkerError::ResourceExhausted => "DMS Host Arena is full"@,
        WorkerError::WorkerUnavailable => "DMS Worker actor or mailbox is unavailable"@,
        WorkerError::MetadataUnavailable =>
            "DMS metadata service is unavailable or returned an incomplete response"@,
        WorkerError::TransferUnavailable => "DMS transfer path is unavailable"@,
        WorkerError::ArenaStaleHandle => "stale DMS Arena region or allocation handle"@,
        WorkerError::ArenaShmUnavailable => "DMS Arena shared memory is unavailable"@,
        WorkerError::ArenaAccessDenied => "DMS Arena region access denied"@,
        WorkerError::Stable(error) => error.message@,
    }
}

impl DmsError {
    /// An error with the given parts.
    pub fn new(code: ErrorCode, kind: ErrorKind, message: &str) -> (error: Self)
        ensures
            error.code == code,
            error.kind == kind,
            error.message@ == message@,
    {
        DmsError { code, kind, message: message.to_owned() }
    }

    /// An equal error.
    pub fn duplicate(&self) -> (copy: Self)
        ensures
            copy == *self,
    {
        DmsError { code: self.code, kind: self.kind, message: self.message.clone() }
    }
}

impl WorkerError {
    /// Whether the error says that a version condition did not hold, wherever that was found.
    pub fn is_version_conflict(&self) -> (conflict: bool)
        ensures
            conflict == (*self is Conflict || (*self matches WorkerError::Stable(error)
                && error.code == ErrorCode::MetaCatalogVersionConflict)),
    {
        match self {
            WorkerError::Conflict => true,
            WorkerError::Stable(error) => match error.code {
                ErrorCode::MetaCatalogVersionConflict => true,
                _ => false,
            },
            _ => false,
        }
    }

    /// An equal error.
    pub fn duplicate(&self) -> (copy: Self)
        ensures
            copy == *self,
    {
        match self {
            WorkerError::InvalidArgument(reason) => WorkerError::InvalidArgument(*reason),
            WorkerError::UnknownSession => WorkerError::UnknownSession,
            WorkerError::UnknownStaging => WorkerError::UnknownStaging,
            WorkerError::UnknownTransfer => WorkerError::UnknownTransfer,
            WorkerError::NotFound => WorkerError::NotFound,
            WorkerError::NoLiveReplica => WorkerError::NoLiveReplica,
            WorkerError::Conflict => WorkerError::Conflict,
            WorkerError::ResourceExhausted => WorkerError::ResourceExhausted,
            WorkerError::WorkerUnavailable => WorkerError::WorkerUnavailable,
            WorkerError::MetadataUnavailable => WorkerError::MetadataUnavailable,
            WorkerError::TransferUnavailable => WorkerError::TransferUnavailable,
            WorkerError::ArenaInvalidRequest => WorkerError::ArenaInvalidRequest,
            WorkerError::ArenaStaleHandle => WorkerError::ArenaStaleHandle,
            WorkerError::ArenaShmUnavailable => WorkerError::ArenaShmUnavailable,
            WorkerError::ArenaAccessDenied => WorkerError::ArenaAccessDenied,
            WorkerError::Stable(error) => WorkerError::Stable(error.duplicate()),
        }
    }
}

/// The error that a caller of the node sees.
pub fn worker_error_to_dms(error: WorkerError) -> (wire: DmsError)
    ensures
        wire.code == wire_code(error),
        wire.kind == wire_kind(error),
        wire.message@ == wire_message(error),
        error matches WorkerError::Stable(inner) ==> wire == inner,
{
    match error {
        WorkerError::InvalidArgument(reason) => DmsError::new(
            ErrorCode::NodeWorkerInvalidRequest,
            ErrorKind::InvalidArgument,
            reason,
        ),
        WorkerError::ArenaInvalidRequest => DmsError::new(
            ErrorCode::NodeArenaInvalidRequest,
            ErrorKind::InvalidArgument,
            "invalid DMS Arena request",
        ),
        WorkerError::UnknownSession => DmsError::new(
            ErrorCode::NodeSessionUnknown,
            ErrorKind::Unauthenticated,
            "unknown DMS session",
        ),
        WorkerError::UnknownStaging | WorkerError::UnknownTransfer | WorkerError::NotFound =>
            DmsError::new(
                ErrorCode::NodeObjectNotFound,
                ErrorKind::NotFound,
                "DMS resource not found",
            ),
        WorkerError::NoLiveReplica => DmsError::new(
            ErrorCode::NodeObjectUnavailable,
            ErrorKind::Unavailable,
            "DMS object version exists, but no live replica can serve the required block",
        ),
        WorkerError::Conflict => DmsError::new(
            ErrorCode::NodeVersionConflict,
            ErrorKind::FailedPrecondition,
            "DMS staging or version conflict",
        ),
        WorkerError::ResourceExhausted => DmsError::new(
            ErrorCode::NodeArenaCapacityExhausted,
            ErrorKind::ResourceExhausted,
            "DMS Host Arena is full",
        ),
        WorkerError::WorkerUnavailable => DmsError::new(
            ErrorCode::NodeWorkerUnavailable,
            ErrorKind::Unavailable,
            "DMS Worker actor or mailbox is unavailable",
        ),
        WorkerError::MetadataUnavailable => DmsError::new(
            ErrorCode::NodeMetadataUnavailable,
            ErrorKind::Unavailable,
            "DMS metadata service is unavailable or returned an incomplete response",
        ),
        WorkerError::TransferUnavailable => DmsError::new(
            ErrorCode::NodeTransferUnavailable,
            ErrorKind::Unavailable,
            "DMS transfer path is unavailable",
        ),
        WorkerError::ArenaStaleHandle => DmsError::new(
            ErrorCode::NodeArenaStaleHandle,
            ErrorKind::Unavailable,
            "stale DMS Arena region or allocation handle",
        ),
        WorkerError::ArenaShmUnavailable => DmsError::new(
            ErrorCode::NodeArenaShmUnavailable,
            ErrorKind::Unavailable,
            "DMS Arena shared memory is unavailable",
        ),
        WorkerError::ArenaAccessDenied => DmsError::new(
            ErrorCode::NodeArenaAccessDenied,
            ErrorKind::PermissionDenied,
            "DMS Arena region access denied",
        ),
        WorkerError::Stable(error) => error,
    }
}

/// An error of the metadata service is passed on as it is.
pub fn map_metadata_error(error: DmsError) -> (mapped: WorkerError)
    ensures
        mapped == WorkerError::Stable(error),
{
    WorkerError::Stable(error)
}

/// Whether the error is the ordinary answer that nothing was found.
pub open spec fn says_not_found(error: WorkerError) -> bool {
    error is NotFound || (error matches WorkerError::Stable(inner) && inner.kind
        == ErrorKind::NotFound)
}

/// Whether the error is the ordinary answer that nothing was found.
pub fn is_not_found_result(error: &WorkerError) -> (miss: bool)
    ensures
        miss == says_not_found(*error),
{
    match error {
        WorkerError::NotFound => true,
        WorkerError::Stable(inner) => inner.kind == ErrorKind::NotFound,
        _ => false,
    }
}

/// Whether another look at the block's locations can help after the error.
pub open spec fn blames_location(error: WorkerError) -> bool {
    error is NotFound || error is TransferUnavailable || (error matches WorkerError::Stable(inner)
        && inner.code == ErrorCode::NodeTransferUnavailable)
}

/// Whether another look at the block's locations can help after the error.
pub fn can_refresh_cached_location(error: &WorkerError) -> (refresh: bool)
    ensures
        refresh == blames_location(*error),
{
    match error {
        WorkerError::NotFound | WorkerError::TransferUnavailable => true,
        WorkerError::Stable(inner) => inner.code == ErrorCode::NodeTransferUnavailable,
        _ => false,
    }
}

/// Whether the metadata service certainly did not publish what was proposed.
pub open spec fn proves_unpublished(error: DmsError) -> bool {
    error.code == ErrorCode::MetaCatalogInvalidRequest || error.code
        == ErrorCode::MetaCatalogVersionConflict
}

/// Whether the metadata service certainly did not publish what was proposed. Only a rejection
/// before the commit proves that; after any other error the proposal may have been stored.
pub fn is_definitive_metadata_rejection(error: &DmsError) -> (definitive: bool)
    ensures
        definitive == proves_unpublished(*error),
{
    match error.code {
        ErrorCode::MetaCatalogInvalidRequest | ErrorCode::MetaCatalogVersionConflict => true,
        _ => false,
    }
}

/// Whether another source of the same block may still succeed after the error.
pub open spec fn blames_source(error: WorkerError) -> bool {
    error is NotFound || error is TransferUnavailable || error is Conflict || (
    error matches WorkerError::Stable(inner) && (inner.kind == ErrorKind::Unavailable || inner.kind
        == ErrorKind::NotFound || inner.kind == ErrorKind::DataLoss))
}

/// Whether another source of the same block may still succeed after the error. A bad request or
/// a full node is the same for every source.
pub fn can_try_next_peer_source(error: &WorkerError) -> (next: bool)
    ensures
        next == blames_source(*error),
{
    match error {
        WorkerError::NotFound | WorkerError::TransferUnavailable | WorkerError::Conflict => true,
        WorkerError::Stable(inner) => match inner.kind {
            ErrorKind::Unavailable | ErrorKind::NotFound | ErrorKind::DataLoss => true,
            _ => false,
        },
        _ => false,
    }
}

/// The error of a transfer path, with a text that says what failed.
pub fn transfer_unavailable(message: String) -> (error: WorkerError)
    ensures
        error == WorkerError::Stable(
            (DmsError {
                code: ErrorCode::NodeTransferUnavailable,
                kind: ErrorKind::Unavailable,
                message,
            }),
        ),
{
    WorkerError::Stable(
        DmsError {
            code: ErrorCode::NodeTransferUnavailable,
            kind: ErrorKind::Unavailable,
            message,
        },
    )
}

/// What an arena error means to a caller of the node.
pub open spec fn arena_error_means(error: ArenaError, mapped: WorkerError) -> bool {
    match error {
        ArenaError::UnknownTransfer => mapped is UnknownTransfer,
        ArenaError::UnknownStaging => mapped is UnknownStaging,
        ArenaError::StagingNotWritable
        | ArenaError::ReceiptConflict
        | ArenaError::ReservationConflict => mapped is Conflict,
        ArenaError::StaleHandle | ArenaError::UnknownRegion => mapped is ArenaStaleHandle,
        ArenaError::SharedMemoryUnavailable => mapped is ArenaShmUnavailable,
        ArenaError::RegionAccessDenied => mapped is ArenaAccessDenied,
        ArenaError::RegionCreateFailed => mapped matches WorkerError::Stable(inner) && inner.code
            == ErrorCode::NodeArenaAllocationFailed && inner.kind == ErrorKind::ResourceExhausted
            && inner.message@ == "DMS Arena failed to allocate a backing region"@,
        ArenaError::CapacityExhausted => mapped is ResourceExhausted,
        ArenaError::EmptyPayload
        | ArenaError::LengthMismatch
        | ArenaError::RangeOutOfBounds
        | ArenaError::RegionOverflow => mapped is ArenaInvalidRequest,
        ArenaError::UnknownBlock | ArenaError::UnknownReservation => mapped is NotFound,
    }
}

/// What an arena error means to a caller of the node.
pub fn map_arena_error(error: ArenaError) -> (mapped: WorkerError)
    ensures
        arena_error_means(error, mapped),
{
    match error {
        ArenaError::UnknownTransfer => WorkerError::UnknownTransfer,
        ArenaError::UnknownStaging => WorkerError::UnknownStaging,
        ArenaError::StagingNotWritable
        | ArenaError::ReceiptConflict
        | ArenaError::ReservationConflict => WorkerError::Conflict,
        ArenaError::StaleHandle | ArenaError::UnknownRegion => WorkerError::ArenaStaleHandle,
        ArenaError::SharedMemoryUnavailable => WorkerError::ArenaShmUnavailable,
        ArenaError::RegionAccessDenied => WorkerError::ArenaAccessDenied,
        ArenaError::RegionCreateFailed => WorkerError::Stable(
            DmsError::new(
                ErrorCode::NodeArenaAllocationFailed,
                ErrorKind::ResourceExhausted,
                "DMS Arena failed to allocate a backing region",
            ),
        ),
        ArenaError::CapacityExhausted => WorkerError::ResourceExhausted,
        ArenaError::EmptyPayload
        | ArenaError::LengthMismatch
        | ArenaError::RangeOutOfBounds
        | ArenaError::RegionOverflow => WorkerError::ArenaInvalidRequest,
        ArenaError::UnknownBlock | ArenaError::UnknownReservation => WorkerError::NotFound,
    }
}

/// What an arena error means to a caller of the node.
pub open spec fn arena_fault(error: ArenaError) -> WorkerError {
    match error {
        ArenaError::UnknownTransfer => WorkerError::UnknownTransfer,
        ArenaError::UnknownStaging => WorkerError::UnknownStaging,
        ArenaError::StagingNotWritable
        | ArenaError::ReceiptConflict
        | ArenaError::ReservationConflict => WorkerError::Conflict,
        ArenaError::StaleHandle | ArenaError::UnknownRegion => WorkerError::ArenaStaleHandle,
        ArenaError::SharedMemoryUnavailable => WorkerError::ArenaShmUnavailable,
        ArenaError::RegionAccessDenied => WorkerError::ArenaAccessDenied,
        ArenaError::RegionCreateFailed => choose|mapped: WorkerError| #[trigger]
            arena_error_means(error, mapped),
        ArenaError::CapacityExhausted => WorkerError::ResourceExhausted,
        ArenaError::EmptyPayload
        | ArenaError::LengthMismatch
        | ArenaError::RangeOutOfBounds
        | ArenaError::RegionOverflow => WorkerError::ArenaInvalidRequest,
        ArenaError::UnknownBlock | ArenaError::UnknownReservation => WorkerError::NotFound,
    }
}

/// What an error is called on its way out agrees with what the node makes of it: what says that
/// something is not there leaves as such, what another source may mend is unavailable, not there, in
/// conflict or lost, and never a bad request or a full node. An error that came from outside leaves as
/// it came.
pub proof fn an_error_leaves_as_what_the_node_makes_of_it(error: WorkerError, refusal: DmsError)
    ensures
        says_not_found(error) ==> wire_kind(error) == ErrorKind::NotFound,
        error is NotFound ==> says_not_found(error) && blames_location(error) && blames_source(
            error,
        ),
        error is TransferUnavailable ==> blames_location(error) && blames_source(error)
            && wire_code(error) == ErrorCode::NodeTransferUnavailable && wire_kind(error)
            == ErrorKind::Unavailable,
        error is Conflict ==> blames_source(error) && !blames_location(error) && wire_kind(error)
            == ErrorKind::FailedPrecondition,
        error is InvalidArgument || error is ResourceExhausted || error is UnknownSession
            || error is MetadataUnavailable ==> !blames_source(error) && !blames_location(error)
            && !says_not_found(error),
        error matches WorkerError::InvalidArgument(reason) ==> wire_kind(error)
            == ErrorKind::InvalidArgument && wire_message(error) == reason@,
        error is ResourceExhausted ==> wire_kind(error) == ErrorKind::ResourceExhausted,
        error is UnknownSession ==> wire_kind(error) == ErrorKind::Unauthenticated,
        error is ArenaAccessDenied ==> wire_kind(error) == ErrorKind::PermissionDenied,
        error is MetadataUnavailable || error is WorkerUnavailable || error is NoLiveReplica
            ==> wire_kind(error) == ErrorKind::Unavailable,
        error is UnknownStaging || error is UnknownTransfer ==> wire_kind(error)
            == ErrorKind::NotFound,
        wire_code(WorkerError::Stable(refusal)) == refusal.code,
        wire_kind(WorkerError::Stable(refusal)) == refusal.kind,
        wire_message(WorkerError::Stable(refusal)) == refusal.message@,
        proves_unpublished(refusal) <==> refusal.code == ErrorCode::MetaCatalogVersionConflict
            || refusal.code == ErrorCode::MetaCatalogInvalidRequest,
        refusal.code == ErrorCode::NodeTransferUnavailable ==> blames_location(
            WorkerError::Stable(refusal),
        ),
        refusal.kind == ErrorKind::DataLoss || refusal.kind == ErrorKind::Unavailable
            || refusal.kind == ErrorKind::NotFound ==> blames_source(WorkerError::Stable(refusal)),
        refusal.kind == ErrorKind::InvalidArgument || refusal.kind == ErrorKind::ResourceExhausted
            ==> !blames_source(WorkerError::Stable(refusal)),
{
}

/// Whatever goes wrong with the memory has one meaning for those who asked: a full arena is exhausted,
/// a bad length or range is a bad request, what is not there is not there, what does not agree with a
/// receipt is in conflict, and what belongs to another is denied.
pub proof fn a_fault_of_the_memory_has_one_meaning(error: ArenaError, mapped: WorkerError)
    requires
        arena_error_means(error, mapped),
    ensures
        error is RegionCreateFailed || arena_fault(error) == mapped,
        error is CapacityExhausted ==> wire_kind(mapped) == ErrorKind::ResourceExhausted,
        error is RegionCreateFailed ==> wire_kind(mapped) == ErrorKind::ResourceExhausted,
        error is EmptyPayload || error is LengthMismatch || error is RangeOutOfBounds
            ==> wire_kind(mapped) == ErrorKind::InvalidArgument,
        error is UnknownBlock || error is UnknownReservation || error is UnknownStaging
            || error is UnknownTransfer ==> wire_kind(mapped) == ErrorKind::NotFound,
        error is ReceiptConflict || error is ReservationConflict || error is StagingNotWritable
            ==> wire_kind(mapped) == ErrorKind::FailedPrecondition,
        error is RegionAccessDenied ==> wire_kind(mapped) == ErrorKind::PermissionDenied,
        error is StaleHandle || error is UnknownRegion || error is SharedMemoryUnavailable
            ==> wire_kind(mapped) == ErrorKind::Unavailable,
{
}

} // verus!
