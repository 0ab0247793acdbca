//! Pulling blocks from other nodes: what is asked for, which answers are taken, and what is tried
//! next where an answer is not.
use crate::bytes::{append_bytes, copy_bytes, same_bytes};
use crate::digest::digest;
#[allow(unused_imports)]
use crate::digest::sha256_of;
#[allow(unused_imports)]
use crate::error::blames_source;
use crate::error::{can_try_next_peer_source, transfer_unavailable, WorkerError};
#[allow(unused_imports)]
use crate::error::{ErrorCode, ErrorKind};
use crate::identity::bytes_to_lower_hex;
#[allow(unused_imports)]
use crate::identity::hex_of;
use crate::layout_write::push_decimal;
#[allow(unused_imports)]
use crate::layout_write::decimal_of;
use crate::node_import::PeerBlockResult;
#[allow(unused_imports)]
use crate::node_import::BlockResultView;
use crate::payload::Payload;
use crate::peer_import::{PeerPullSource, PeerPullSpec};
#[allow(unused_imports)]
use crate::peer_import::{PullSpecView, SourceView};
use crate::table::Table;
use vstd::prelude::*;

verus! {

/// The most bytes of a block that are pulled in one piece.
pub const PEER_PULL_SEGMENT_BYTES: u64 = 2097152;

/// The most pieces of a block that are asked for or held at a time.
pub const PEER_PULL_WINDOW: usize = 2;

/// The most connections to other nodes that are kept.
pub const PEER_CHANNEL_CACHE_LIMIT: usize = 128;

/// The codes with which another node fails a request.
#[derive(Clone, Copy, Debug, PartialEq, Eq, Structural)]
pub enum PeerCode {
    Success,
    Cancelled,
    Unknown,
    InvalidArgument,
    DeadlineExceeded,
    NotFound,
    AlreadyExists,
    PermissionDenied,
    ResourceExhausted,
    FailedPrecondition,
    Aborted,
    OutOfRange,
    Unimplemented,
    Internal,
    Unavailable,
    DataLoss,
    Unauthenticated,
}

/// How another node failed a request: the code, and the status as text.
#[derive(Debug, PartialEq, Eq)]
pub struct PeerStatus {
    pub code: PeerCode,
    pub text: String,
}

/// Whether a request that failed so may succeed over a new connection.
pub open spec fn retryable(code: PeerCode) -> bool {
    code == PeerCode::Unavailable || code == PeerCode::Unknown || code == PeerCode::DeadlineExceeded
}

/// Whether a request that failed so may succeed over a new connection.
pub fn is_retryable_peer_status(status: &PeerStatus) -> (retry: bool)
    ensures
        retry == retryable(status.code),
{
    match status.code {
        PeerCode::Unavailable | PeerCode::Unknown | PeerCode::DeadlineExceeded => true,
        _ => false,
    }
}

/// What the failure of a pull means.
pub open spec fn pull_failure_means(status: PeerStatus, error: WorkerError) -> bool {
    match status.code {
        PeerCode::NotFound => error is NotFound,
        PeerCode::InvalidArgument => error == WorkerError::InvalidArgument("invalid peer request"),
        PeerCode::FailedPrecondition | PeerCode::Aborted => error is Conflict,
        _ => error matches WorkerError::Stable(inner) && inner.code
            == ErrorCode::NodeTransferUnavailable && inner.kind == ErrorKind::Unavailable
            && inner.message@ == "peer PullBlock failed: "@ + status.text@,
    }
}

/// What the failure of a pull means.
pub fn map_peer_pull_status(status: &PeerStatus) -> (error: WorkerError)
    ensures
        pull_failure_means(*status, error),
{
    match status.code {
        PeerCode::NotFound => WorkerError::NotFound,
        PeerCode::InvalidArgument => WorkerError::InvalidArgument("invalid peer request"),
        PeerCode::FailedPrecondition | PeerCode::Aborted => WorkerError::Conflict,
        _ => transfer_unavailable(
            "peer PullBlock failed: ".to_owned().concat(status.text.as_str()),
        ),
    }
}

/// A failure is tried again only where the other node did not answer, and then the transfer is said to be
/// unavailable. An answer of the other node stands: that there is no such block, that the request was
/// wrong, or that it conflicts.
pub proof fn only_a_lost_answer_is_asked_for_again(status: PeerStatus, error: WorkerError)
    requires
        pull_failure_means(status, error),
    ensures
        retryable(status.code) ==> {
            &&& error is Stable
            &&& error->Stable_0.code == ErrorCode::NodeTransferUnavailable
            &&& error->Stable_0.kind == ErrorKind::Unavailable
        },
        error is NotFound <==> status.code == PeerCode::NotFound,
        error is InvalidArgument <==> status.code == PeerCode::InvalidArgument,
        error is Conflict <==> status.code == PeerCode::FailedPrecondition || status.code
            == PeerCode::Aborted,
        error is NotFound || error is InvalidArgument || error is Conflict || error is Stable,
        retryable(PeerCode::Unavailable),
        retryable(PeerCode::Unknown),
        retryable(PeerCode::DeadlineExceeded),
{
}

/// The failure of a connection to another node.
pub fn connect_failure(text: &String) -> (error: WorkerError)
    ensures
        error matches WorkerError::Stable(inner) && inner.code
            == ErrorCode::NodeTransferUnavailable && inner.kind == ErrorKind::Unavailable
            && inner.message@ == "peer connect failed: "@ + text@,
{
    transfer_unavailable("peer connect failed: ".to_owned().concat(text.as_str()))
}

/// Whether a connection has to go before another can be kept.
pub fn must_evict_channel(kept: usize) -> (evict: bool)
    ensures
        evict == (kept >= PEER_CHANNEL_CACHE_LIMIT),
{
    kept >= PEER_CHANNEL_CACHE_LIMIT
}

/// What of a block is asked for: all of it, or a piece.
#[derive(Clone, Copy, Debug, PartialEq, Eq, Structural)]
pub struct PeerSegmentRequest {
    pub offset: Option<u64>,
    pub length: Option<u64>,
    /// Whether the answer's checksum is that of the whole block.
    pub validate_whole_block: bool,
}

impl PeerSegmentRequest {
    /// All of a block.
    pub fn whole_block() -> (request: Self)
        ensures
            request == (PeerSegmentRequest {
                offset: None,
                length: None,
                validate_whole_block: true,
            }),
    {
        PeerSegmentRequest { offset: None, length: None, validate_whole_block: true }
    }

    /// A piece of a block.
    pub fn segment(offset: u64, length: u64) -> (request: Self)
        ensures
            request == (PeerSegmentRequest {
                offset: Some(offset),
                length: Some(length),
                validate_whole_block: false,
            }),
    {
        PeerSegmentRequest {
            offset: Some(offset),
            length: Some(length),
            validate_whole_block: false,
        }
    }
}

/// A request to another node for a block or a piece of it.
#[derive(Debug, PartialEq, Eq)]
pub struct PeerPullBlockRequest {
    pub source_node_id: String,
    pub block_id: Vec<u8>,
    pub offset: Option<u64>,
    pub length: Option<u64>,
    pub expected_length: u64,
    pub expected_checksum: Vec<u8>,
}

/// A request to another node for a block or a piece of it. Only a request for the whole block says
/// the checksum that is expected.
pub fn pull_request(source_node_id: &String, spec: &PeerPullSpec, segment: PeerSegmentRequest) -> (
request: PeerPullBlockRequest)
    ensures
        request.source_node_id@ == source_node_id@,
        request.block_id@ == spec@.block_id,
        request.offset == segment.offset,
        request.length == segment.length,
        request.expected_length == spec@.expected_length,
        request.expected_checksum@ == (if segment.validate_whole_block {
            spec@.expected_checksum
        } else {
            Seq::empty()
        }),
{
    let expected_checksum: Vec<u8> = if segment.validate_whole_block {
        copy_bytes(&spec.expected_checksum)
    } else {
        let none: Vec<u8> = Vec::new();
        assert(none@ =~= Seq::empty());
        none
    };
    PeerPullBlockRequest {
        source_node_id: source_node_id.clone(),
        block_id: copy_bytes(&spec.block_id),
        offset: segment.offset,
        length: segment.length,
        expected_length: spec.expected_length,
        expected_checksum,
    }
}

/// How many bytes a request asks for.
pub open spec fn asked_length(spec: PullSpecView, segment: PeerSegmentRequest) -> u64 {
    match segment.length {
        Some(length) => length,
        None => spec.expected_length,
    }
}

/// Whether an answer is what was asked for. The bytes of a piece have to have the checksum that comes
/// with them; those of a whole block are checked when the block is taken.
pub open spec fn acceptable(
    spec: PullSpecView,
    segment: PeerSegmentRequest,
    answer: BlockResultView,
) -> bool {
    &&& answer.block_id == spec.block_id
    &&& answer.length == spec.expected_length
    &&& answer.payload.len() == asked_length(spec, segment)
    &&& segment.validate_whole_block && spec.expected_checksum.len() > 0 ==> answer.checksum
        == spec.expected_checksum
    &&& !segment.validate_whole_block && answer.checksum.len() > 0 ==> answer.checksum == sha256_of(
        answer.payload,
    )
}

/// Takes an answer that is what was asked for.
pub fn accept_segment(spec: &PeerPullSpec, segment: PeerSegmentRequest, answer: PeerBlockResult) -> (
accepted: Result<PeerBlockResult, WorkerError>)
    ensures
        match accepted {
            Ok(taken) => acceptable(spec@, segment, answer@) && taken == answer,
            Err(error) => !acceptable(spec@, segment, answer@) && error is Conflict,
        },
{
    let expected_payload_length: u64 = match segment.length {
        Some(length) => length,
        None => spec.expected_length,
    };
    let bytes: &[u8] = answer.payload.as_slice();
    if !same_bytes(&answer.block_id, &spec.block_id) || answer.length != spec.expected_length
        || bytes.len() as u64 != expected_payload_length || (segment.validate_whole_block
        && spec.expected_checksum.len() > 0 && !same_bytes(
        &answer.checksum,
        &spec.expected_checksum,
    )) || (!segment.validate_whole_block && answer.checksum.len() > 0 && !same_bytes(
        &digest(bytes),
        &answer.checksum,
    )) {
        return Err(WorkerError::Conflict);
    }
    Ok(answer)
}

/// What to do after a request for a piece failed.
#[derive(Debug, PartialEq, Eq)]
pub enum SegmentRetry {
    /// Drop the connection and ask once more over a new one.
    Reconnect,
    Fail(WorkerError),
}

/// Says what to do after a request for a piece failed. A connection that was kept may be stale, so
/// one more is tried.
pub fn after_segment_failure(status: &PeerStatus, first_try: bool) -> (next: SegmentRetry)
    ensures
        match next {
            SegmentRetry::Reconnect => first_try && retryable(status.code),
            SegmentRetry::Fail(error) => !(first_try && retryable(status.code))
                && pull_failure_means(*status, error),
        },
{
    if first_try && is_retryable_peer_status(status) {
        SegmentRetry::Reconnect
    } else {
        SegmentRetry::Fail(map_peer_pull_status(status))
    }
}

/// Which of the sources of a block to try first.
pub fn first_source(spec: &PeerPullSpec) -> (first: Result<usize, WorkerError>)
    ensures
        match first {
            Ok(index) => index == 0 && spec@.sources.len() > 0,
            Err(error) => spec@.sources.len() == 0 && error is NoLiveReplica,
        },
{
    if spec.sources.len() == 0 {
        Err(WorkerError::NoLiveReplica)
    } else {
        Ok(0)
    }
}

/// Which of the sources of a block to try after one failed, or the failure where no other can help.
pub fn next_source(spec: &PeerPullSpec, index: usize, error: WorkerError) -> (next: Result<
    usize,
    WorkerError,
>)
    requires
        index < spec@.sources.len(),
    ensures
        match next {
            Ok(next) => next == index + 1 && next < spec@.sources.len() && blames_source(error),
            Err(failure) => failure == error && (index + 1 == spec@.sources.len()
                || !blames_source(error)),
        },
{
    let count: usize = spec.sources.len();
    if index < count - 1 && can_try_next_peer_source(&error) {
        Ok(index + 1)
    } else {
        Err(error)
    }
}

/// Calls `Vec::try_reserve_exact` on a new vector. The vector is empty. Where nothing is asked for,
/// the call has nothing to do and succeeds; otherwise whether there is memory for it depends on the
/// machine.
#[verifier::external_body]
fn try_reserve(capacity: usize) -> (buffer: Option<Vec<u8>>)
    ensures
        buffer matches Some(bytes) ==> bytes@ == Seq::<u8>::empty(),
        capacity == 0 ==> buffer is Some,
{
    let mut bytes: Vec<u8> = Vec::new();
    match bytes.try_reserve_exact(capacity) {
        Ok(()) => Some(bytes),
        Err(_) => None,
    }
}

/// Whether a block is pulled at once, and not in pieces.
pub fn is_pulled_at_once(spec: &PeerPullSpec) -> (at_once: bool)
    ensures
        at_once == (spec@.expected_length <= PEER_PULL_SEGMENT_BYTES),
{
    spec.expected_length <= PEER_PULL_SEGMENT_BYTES
}

/// A buffer for a block of some length, where there is memory for it. A length that no buffer can
/// have gets none, and no memory is needed for an empty block.
pub fn buffer_for(length: u64) -> (buffer: Option<Vec<u8>>)
    ensures
        buffer matches Some(bytes) ==> bytes@ == Seq::<u8>::empty(),
        length > usize::MAX ==> buffer is None,
        length == 0 ==> buffer is Some,
{
    if length > usize::MAX as u64 {
        return None;
    }
    try_reserve(length as usize)
}

/// A block that is pulled in pieces.
pub struct SegmentWindow {
    pub block_id: Vec<u8>,
    pub expected_checksum: Vec<u8>,
    pub expected_length: u64,
    /// Where the next piece that is asked for starts.
    pub next_request: u64,
    /// How many pieces were asked for and have not come yet.
    pub asked: usize,
    /// The pieces that have come before one that is missing.
    pub ready: Table<u64, PeerBlockResult>,
    /// The bytes so far, in order.
    pub payload: Vec<u8>,
    pub serving_node_id: String,
}

/// A block that is pulled in pieces, as a value.
#[verifier::ext_equal]
pub struct WindowView {
    pub block_id: Seq<u8>,
    pub expected_checksum: Seq<u8>,
    pub expected_length: u64,
    pub next_request: u64,
    pub asked: usize,
    pub ready: Map<u64, BlockResultView>,
    pub payload: Seq<u8>,
    pub serving_node_id: Seq<char>,
}

impl View for SegmentWindow {
    type V = WindowView;

    open spec fn view(&self) -> WindowView {
        WindowView {
            block_id: self.block_id@,
            expected_checksum: self.expected_checksum@,
            expected_length: self.expected_length,
            next_request: self.next_request,
            asked: self.asked,
            ready: self.ready@,
            payload: self.payload@,
            serving_node_id: self.serving_node_id@,
        }
    }
}

/// The length of the piece that starts somewhere.
pub open spec fn piece_length(expected_length: u64, start: u64) -> u64 {
    if expected_length - start < PEER_PULL_SEGMENT_BYTES {
        (expected_length - start) as u64
    } else {
        PEER_PULL_SEGMENT_BYTES
    }
}

/// Whether a piece can start or end somewhere.
pub open spec fn is_boundary(expected_length: u64, position: int) -> bool {
    position % (PEER_PULL_SEGMENT_BYTES as int) == 0 || position == expected_length
}

impl WindowView {
    /// What is true of the window at any time: no more than two pieces are asked for or held, and
    /// no byte was taken beyond what was asked for.
    pub open spec fn wf(self) -> bool {
        &&& self.ready.dom().finite()
        &&& self.asked + self.ready.len() <= PEER_PULL_WINDOW
        &&& self.payload.len() <= self.next_request
        &&& self.next_request <= self.expected_length
        &&& self.expected_length <= usize::MAX
        &&& is_boundary(self.expected_length, self.payload.len() as int)
        &&& is_boundary(self.expected_length, self.next_request as int)
        &&& forall|start: u64| #[trigger]
            self.ready.contains_key(start) ==> self.payload.len() < start < self.next_request
                && is_boundary(self.expected_length, start as int)
    }

    /// Whether another piece may be asked for.
    pub open spec fn wants(self) -> bool {
        self.asked + self.ready.len() < PEER_PULL_WINDOW && self.next_request < self.expected_length
    }

    /// The window after the next piece was asked for.
    pub open spec fn requested(self) -> WindowView {
        WindowView {
            asked: (self.asked + 1) as usize,
            next_request: (self.next_request + piece_length(
                self.expected_length,
                self.next_request,
            )) as u64,
            ..self
        }
    }

    /// Whether the next piece in order is here and what is wrong with it.
    pub open spec fn piece_fault(self) -> bool {
        let start = self.payload.len() as u64;
        let piece = self.ready[start];
        piece.length != self.expected_length || piece.payload.len() != piece_length(
            self.expected_length,
            start,
        ) || (self.serving_node_id.len() > 0 && self.serving_node_id != piece.serving_node_id)
    }

    /// The window after the next piece in order was taken.
    pub open spec fn took(self) -> WindowView {
        let start = self.payload.len() as u64;
        let piece = self.ready[start];
        WindowView {
            ready: self.ready.remove(start),
            payload: self.payload + piece.payload,
            serving_node_id: if self.serving_node_id.len() == 0 {
                piece.serving_node_id
            } else {
                self.serving_node_id
            },
            ..self
        }
    }

    /// The window after the pieces that are next in order were taken, as many as are here, or
    /// `None` where one of them is wrong.
    pub open spec fn drained(self) -> Option<WindowView>
        decreases self.ready.len(),
        when self.ready.dom().finite()
    {
        let start = self.payload.len() as u64;
        if self.payload.len() >= self.expected_length || !self.ready.contains_key(start) {
            Some(self)
        } else if self.piece_fault() {
            None
        } else {
            self.took().drained()
        }
    }

    /// The window after a piece came, or `None` where a piece is wrong.
    pub open spec fn arrived(self, start: u64, piece: BlockResultView) -> Option<WindowView> {
        WindowView {
            asked: (self.asked - 1) as usize,
            ready: self.ready.insert(start, piece),
            ..self
        }.drained()
    }

    /// Whether every byte is here.
    pub open spec fn complete(self) -> bool {
        self.payload.len() >= self.expected_length
    }

    /// The block, once every byte is here. Where no checksum was expected, it is that of the bytes.
    pub open spec fn block(self) -> BlockResultView {
        BlockResultView {
            serving_node_id: self.serving_node_id,
            block_id: self.block_id,
            checksum: if self.expected_checksum.len() == 0 {
                sha256_of(self.payload)
            } else {
                self.expected_checksum
            },
            length: self.expected_length,
            payload: self.payload,
        }
    }

    /// Whether the bytes so far, and those of the pieces that wait, are those of some bytes.
    pub open spec fn follows(self, bytes: Seq<u8>) -> bool {
        &&& bytes.len() == self.expected_length
        &&& self.payload == bytes.take(self.payload.len() as int)
        &&& forall|start: u64| #[trigger]
            self.ready.contains_key(start) ==> self.ready[start].payload == bytes.subrange(
                start as int,
                start + piece_length(self.expected_length, start),
            )
    }
}

/// A block is asked for piece by piece: each piece begins where the one before it ends, is as long as
/// a piece may be or reaches to the block's end, and no more are on their way or wait than the window
/// holds. The bytes that are here, and the pieces that wait, stay as they are.
pub proof fn a_block_is_asked_for_piece_by_piece(window: WindowView)
    requires
        window.wf(),
    ensures
        window.wants() <==> window.asked + window.ready.len() < 2
            && window.next_request < window.expected_length,
        window.wants() ==> {
            let next = window.requested();
            &&& window.next_request < next.next_request <= window.expected_length
            &&& next.next_request - window.next_request == 2097152 || (
            next.next_request == window.expected_length && next.next_request - window.next_request
                < 2097152)
            &&& next.asked == window.asked + 1
            &&& next.asked + next.ready.len() <= 2
            &&& next.payload == window.payload
            &&& next.ready == window.ready
            &&& next.expected_length == window.expected_length
            &&& next.block_id == window.block_id
        },
{
}

/// A piece that comes when it is next in order is taken only if it says the block's length, is exactly
/// as long as it has to be, and comes from the node that the pieces before it came from; then its
/// bytes follow theirs. A block is complete once as many bytes are here as were announced.
pub proof fn a_wrong_piece_is_never_taken(window: WindowView, start: u64, piece: BlockResultView)
    requires
        window.wf(),
        window.asked > 0,
        start == window.payload.len(),
        start < window.expected_length,
    ensures
        window.arrived(start, piece) matches Some(next) ==> {
            &&& piece.length == window.expected_length
            &&& piece.payload.len() == if window.expected_length - start
                < 2097152 {
                window.expected_length - start
            } else {
                2097152int
            }
            &&& window.serving_node_id.len() > 0 ==> piece.serving_node_id
                == window.serving_node_id
            &&& next.payload.len() >= start + piece.payload.len()
            &&& next.payload.take(start + piece.payload.len()) == window.payload + piece.payload
        },
        window.complete() <==> window.payload.len() >= window.expected_length,
        window.block().payload == window.payload,
        window.block().block_id == window.block_id,
        window.block().length == window.expected_length,
        window.expected_checksum.len() > 0 ==> window.block().checksum
            == window.expected_checksum,
        window.expected_checksum.len() == 0 ==> window.block().checksum == sha256_of(
            window.payload,
        ),
{
    let next = WindowView {
        asked: (window.asked - 1) as usize,
        ready: window.ready.insert(start, piece),
        ..window
    };
    if window.arrived(start, piece) is Some {
        assert(!next.piece_fault());
        let taken = next.took();
        assert(taken.ready.dom() =~= next.ready.dom().remove(start));
        lemma_drained_grows(taken);
        let after = taken.drained()->0;
        assert(after == window.arrived(start, piece)->0);
        assert(after.payload.take(start + piece.payload.len()) =~= window.payload
            + piece.payload);
    }
}

proof fn lemma_drained_grows(window: WindowView)
    requires
        window.ready.dom().finite(),
        window.drained() is Some,
    ensures
        window.drained()->0.payload.len() >= window.payload.len(),
        window.drained()->0.payload.take(window.payload.len() as int) == window.payload,
    decreases window.ready.len(),
{
    let start = window.payload.len() as u64;
    if window.payload.len() < window.expected_length && window.ready.contains_key(start) {
        let next = window.took();
        assert(next.ready.dom() =~= window.ready.dom().remove(start));
        assert(next.ready.len() < window.ready.len());
        lemma_drained_grows(next);
        let after = next.drained()->0;
        assert(after.payload.take(window.payload.len() as int) =~= next.payload.take(
            window.payload.len() as int,
        )) by {
            assert(after.payload.take(next.payload.len() as int) == next.payload);
            assert forall|i: int| 0 <= i < window.payload.len() implies after.payload[i]
                == next.payload[i] by {
                assert(after.payload.take(next.payload.len() as int)[i] == after.payload[i]);
            }
        }
        assert(next.payload.take(window.payload.len() as int) =~= window.payload);
    } else {
        assert(window.payload.take(window.payload.len() as int) =~= window.payload);
    }
}

/// Whichever order the pieces of a block come in, their bytes end up in the order of the block.
pub proof fn pieces_come_together_in_order(
    window: WindowView,
    bytes: Seq<u8>,
    start: u64,
    piece: BlockResultView,
)
    requires
        window.wf(),
        window.asked > 0,
        window.follows(bytes),
        window.payload.len() <= start < window.next_request,
        piece.payload == bytes.subrange(
            start as int,
            start + piece_length(window.expected_length, start),
        ),
        window.arrived(start, piece) is Some,
    ensures
        window.arrived(start, piece)->0.follows(bytes),
        window.arrived(start, piece)->0.complete() ==> window.arrived(start, piece)->0.payload
            == bytes,
{
    let next = WindowView {
        asked: (window.asked - 1) as usize,
        ready: window.ready.insert(start, piece),
        ..window
    };
    assert(next.follows(bytes));
    lemma_drained_follows(next, bytes);
    let after = next.drained()->0;
    if after.complete() {
        assert(after.payload =~= bytes);
    }
}

proof fn lemma_drained_follows(window: WindowView, bytes: Seq<u8>)
    requires
        window.ready.dom().finite(),
        window.follows(bytes),
        window.payload.len() <= window.expected_length,
        window.drained() is Some,
    ensures
        window.drained()->0.follows(bytes),
        window.drained()->0.payload.len() <= window.expected_length,
    decreases window.ready.len(),
{
    let start = window.payload.len() as u64;
    if window.payload.len() < window.expected_length && window.ready.contains_key(start) {
        let next = window.took();
        assert(next.payload =~= bytes.take(next.payload.len() as int));
        assert(next.ready.dom() =~= window.ready.dom().remove(start));
        assert(next.ready.len() < window.ready.len());
        lemma_drained_follows(next, bytes);
    }
}

impl SegmentWindow {
    /// A block that is to be pulled in pieces into a buffer, or why it cannot be: there is no memory
    /// for it.
    pub fn new(spec: &PeerPullSpec, buffer: Option<Vec<u8>>) -> (window: Result<
        SegmentWindow,
        WorkerError,
    >)
        requires
            buffer matches Some(bytes) ==> bytes@ == Seq::<u8>::empty() && spec.expected_length
                <= usize::MAX,
        ensures
            match window {
                Ok(window) => buffer is Some && window@.wf() && window@ == (WindowView {
                    block_id: spec@.block_id,
                    expected_checksum: spec@.expected_checksum,
                    expected_length: spec@.expected_length,
                    next_request: 0,
                    asked: 0,
                    ready: Map::empty(),
                    payload: Seq::empty(),
                    serving_node_id: Seq::empty(),
                }),
                Err(error) => buffer is None && error is ResourceExhausted,
            },
    {
        match buffer {
            None => Err(WorkerError::ResourceExhausted),
            Some(payload) => Ok(
                SegmentWindow {
                    block_id: copy_bytes(&spec.block_id),
                    expected_checksum: copy_bytes(&spec.expected_checksum),
                    expected_length: spec.expected_length,
                    next_request: 0,
                    asked: 0,
                    ready: Table::new(),
                    payload,
                    serving_node_id: String::new(),
                },
            ),
        }
    }

    /// The next piece to ask for, where there is room for one.
    pub fn next_segment(&mut self) -> (next: Option<(u64, u64)>)
        requires
            old(self)@.wf(),
        ensures
            final(self)@.wf(),
            match next {
                Some((start, length)) => old(self)@.wants() && start == old(self)@.next_request
                    && length == piece_length(old(self)@.expected_length, start) && final(self)@
                    == old(self)@.requested(),
                None => !old(self)@.wants() && final(self)@ == old(self)@,
            },
    {
        if self.asked + self.ready.len() >= PEER_PULL_WINDOW || self.next_request
            >= self.expected_length {
            return None;
        }
        let start: u64 = self.next_request;
        let rest: u64 = self.expected_length - start;
        let length: u64 = if rest < PEER_PULL_SEGMENT_BYTES {
            rest
        } else {
            PEER_PULL_SEGMENT_BYTES
        };
        self.next_request = start + length;
        self.asked = self.asked + 1;
        Some((start, length))
    }

    /// Takes a piece that came. Pieces that are next in order are appended; one that comes early
    /// waits.
    pub fn segment_arrived(&mut self, start: u64, piece: PeerBlockResult) -> (taken: Result<
        (),
        WorkerError,
    >)
        requires
            old(self)@.wf(),
            old(self)@.asked > 0,
            old(self)@.payload.len() <= start < old(self)@.next_request,
            is_boundary(old(self)@.expected_length, start as int),
            !old(self)@.ready.contains_key(start),
        ensures
            match taken {
                Ok(_) => {
                    &&& old(self)@.arrived(start, piece@) == Some(final(self)@)
                    &&& final(self)@.wf()
                },
                Err(error) => old(self)@.arrived(start, piece@) is None && error is Conflict,
            },
    {
        let ghost before = self@;
        self.asked = self.asked - 1;
        self.ready.insert(start, piece);
        let ghost inserted = self@;
        proof {
            assert(inserted.ready.dom() =~= before.ready.dom().insert(start));
            assert(inserted.ready.len() == before.ready.len() + 1);
        }
        loop
            invariant
                self@.ready.dom().finite(),
                self@.asked + self@.ready.len() <= PEER_PULL_WINDOW,
                self@.payload.len() <= self@.next_request,
                self@.next_request <= self@.expected_length,
                self@.expected_length <= usize::MAX,
                is_boundary(self@.expected_length, self@.payload.len() as int),
                is_boundary(self@.expected_length, self@.next_request as int),
                forall|key: u64| #[trigger]
                    self@.ready.contains_key(key) ==> self@.payload.len() <= key
                        < self@.next_request && is_boundary(self@.expected_length, key as int),
                self@.drained() == inserted.drained(),
                inserted.drained() == before.arrived(start, piece@),
                before == old(self)@,
            ensures
                self@.wf(),
                before.arrived(start, piece@) == Some(self@),
            decreases self@.ready.len(),
        {
            let ghost current = self@;
            let offset: u64 = self.payload.len() as u64;
            if offset >= self.expected_length {
                assert forall|key: u64| #[trigger] self@.ready.contains_key(key) implies false by {}
                break ;
            }
            let piece = match self.ready.remove(&offset) {
                Some(piece) => piece,
                None => {
                    assert(self@ =~= current);
                    break ;
                },
            };
            let rest: u64 = self.expected_length - offset;
            let length: u64 = if rest < PEER_PULL_SEGMENT_BYTES {
                rest
            } else {
                PEER_PULL_SEGMENT_BYTES
            };
            let bytes: &[u8] = piece.payload.as_slice();
            if piece.length != self.expected_length || bytes.len() as u64 != length {
                assert(current.piece_fault());
                return Err(WorkerError::Conflict);
            }
            if self.serving_node_id.as_str().is_empty() {
                self.serving_node_id = piece.serving_node_id.clone();
            } else if self.serving_node_id != piece.serving_node_id {
                assert(current.piece_fault());
                return Err(WorkerError::Conflict);
            }
            append_bytes(&mut self.payload, bytes);
            proof {
                assert(self@ =~= current.took());
                assert(self@.ready.dom() =~= current.ready.dom().remove(offset));
                assert(self@.ready.len() < current.ready.len());
            }
        }
        Ok(())
    }

    /// Whether every byte is here.
    pub fn is_complete(&self) -> (complete: bool)
        ensures
            complete == self@.complete(),
    {
        self.payload.len() as u64 >= self.expected_length
    }

    /// The block, once every byte is here.
    pub fn into_block(self) -> (block: PeerBlockResult)
        ensures
            block@ == self@.block(),
    {
        let checksum: Vec<u8> = if self.expected_checksum.len() == 0 {
            digest(&self.payload)
        } else {
            self.expected_checksum
        };
        PeerBlockResult {
            serving_node_id: self.serving_node_id,
            block_id: self.block_id,
            checksum,
            length: self.expected_length,
            payload: Payload::new(self.payload),
        }
    }
}


/// The line that tells from where a block was pulled.
pub open spec fn selection_line(block_id: Seq<u8>, source: SourceView) -> Seq<char> {
    "block_id="@ + hex_of(block_id) + " node_id="@ + decimal_of(source.node_id as nat)
        + " node_epoch="@ + decimal_of(source.node_epoch as nat) + "\n"@
}

/// The line that tells from where a block was pulled.
pub fn source_selection_receipt(block_id: &Vec<u8>, source: &PeerPullSource) -> (line: String)
    ensures
        line@ == selection_line(block_id@, source@),
{
    let mut line: String = "block_id=".to_owned();
    line.append(bytes_to_lower_hex(block_id).as_str());
    line.append(" node_id=");
    push_decimal(&mut line, source.node_id);
    line.append(" node_epoch=");
    push_decimal(&mut line, source.node_epoch);
    line.append("\n");
    line
}

} // verus!
