//! Reads of values: from a resolved layout to bytes, or to tickets with which a client fetches
//! them, or to a list of blocks that have to be pulled first.
use crate::arena::{ArenaReadTicket, HostShmDescriptor};
#[allow(unused_imports)]
use crate::arena::{AllocationHandle, ArenaView};
use crate::bytes::append_bytes;
#[allow(unused_imports)]
use crate::bytes::{lemma_views_push, lemma_views_take, views};
#[allow(unused_imports)]
use crate::error::{arena_error_means, ArenaError};
use crate::error::{map_arena_error, WorkerError};
use crate::limits::validate_grpc_payload_bytes;
#[allow(unused_imports)]
use crate::limits::{checked, payload_fault};
use crate::node::{DownloadTicket, NodeState};
#[allow(unused_imports)]
use crate::node::{downloads_wf, NodeView};
use crate::peer_import::PeerPullSpec;
#[allow(unused_imports)]
use crate::peer_import::PullSpecView;
use crate::protocol::{BlockReplicaSet, ResolveObjectResponse, VersionLayout};
#[allow(unused_imports)]
use crate::protocol::{LayoutView, ReplicaSetView, ResolvedView};
#[allow(unused_imports)]
use crate::read_plan::{
    byte_at, content, gathered, is_here, is_local, is_read, lemma_plan, reached, reaches, readable,
    PartView,
};
use crate::read_plan::{planned_read_part_offset, DataCorePlannedReadPart, PlannedReadPart};
use crate::staging::moment_after;
#[allow(unused_imports)]
use crate::staging::later;
use crate::version_layout::validate;
#[allow(unused_imports)]
use crate::version_layout::{layout_fault, layout_valid, ExtentView};
use vstd::prelude::*;

verus! {

/// The most bytes that are returned with the answer to a read.
pub const MAX_INLINE_READ_BYTES: u64 = 65536;

/// How long a download waits to be fetched: thirty seconds.
pub const DOWNLOAD_TTL: u64 = 30_000_000_000;

/// Where a client gets a part of a value.
#[derive(Clone, Copy, Debug, PartialEq, Eq, Structural)]
pub enum ReadTarget {
    /// It downloads the part.
    Grpc { transfer_id: u64 },
    /// It reads the part from shared memory.
    Shm(HostShmDescriptor),
    /// The part is zeros.
    Zero { length: u64 },
}

/// A part of a value and where a client gets it.
#[derive(Clone, Copy, Debug, PartialEq, Eq, Structural)]
pub struct ReadTicketSegment {
    pub logical_offset: u64,
    pub target: ReadTarget,
    pub payload_length: u64,
}

/// The answer to a read.
#[derive(Debug, PartialEq, Eq)]
pub struct ReadTicket {
    pub read_request_id: u64,
    pub version: u64,
    pub logical_length: u64,
    /// The bytes, where they are few.
    pub inline_value: Option<Vec<u8>>,
    /// Where to get the bytes, where they are many.
    pub segments: Vec<ReadTicketSegment>,
}

/// The answer to a read, as a value.
#[verifier::ext_equal]
pub struct TicketView {
    pub read_request_id: u64,
    pub version: u64,
    pub logical_length: u64,
    pub inline_value: Option<Seq<u8>>,
    pub segments: Seq<ReadTicketSegment>,
}

impl View for ReadTicket {
    type V = TicketView;

    open spec fn view(&self) -> TicketView {
        TicketView {
            read_request_id: self.read_request_id,
            version: self.version,
            logical_length: self.logical_length,
            inline_value: match self.inline_value {
                Some(bytes) => Some(bytes@),
                None => None,
            },
            segments: self.segments@,
        }
    }
}

/// What came of a read.
#[derive(Debug, PartialEq, Eq)]
pub enum GetOutcome {
    Ready(ReadTicket),
    /// Some blocks have to be pulled first.
    NeedsRemoteBlocks(Vec<PeerPullSpec>),
}

/// What came of a read, as a value.
#[verifier::ext_equal]
pub enum GetView {
    Ready(TicketView),
    NeedsRemoteBlocks(Seq<PullSpecView>),
}

impl View for GetOutcome {
    type V = GetView;

    open spec fn view(&self) -> GetView {
        match *self {
            GetOutcome::Ready(ticket) => GetView::Ready(ticket@),
            GetOutcome::NeedsRemoteBlocks(specs) => GetView::NeedsRemoteBlocks(views(specs@)),
        }
    }
}

/// What came of reading a whole value.
#[derive(Debug, PartialEq, Eq)]
pub enum MaterializeOutcome {
    Ready { version: u64, bytes: Vec<u8> },
    /// Some blocks have to be pulled first.
    NeedsRemoteBlocks(Vec<PeerPullSpec>),
}

/// What came of reading a whole value, as a value.
#[verifier::ext_equal]
pub enum MaterializeView {
    Ready { version: u64, bytes: Seq<u8> },
    NeedsRemoteBlocks(Seq<PullSpecView>),
}

impl View for MaterializeOutcome {
    type V = MaterializeView;

    open spec fn view(&self) -> MaterializeView {
        match *self {
            MaterializeOutcome::Ready { version, bytes } => MaterializeView::Ready {
                version,
                bytes: bytes@,
            },
            MaterializeOutcome::NeedsRemoteBlocks(specs) => MaterializeView::NeedsRemoteBlocks(
                views(specs@),
            ),
        }
    }
}

/// The bytes that a read is for: where they start and how many they are, or why there are none.
/// A range that is to be clamped ends with the value at the latest.
pub open spec fn read_range(range: Option<(u64, u64)>, logical_length: u64, clamp: bool) -> Result<
    (u64, u64),
    WorkerError,
> {
    match range {
        None => Ok((0, logical_length)),
        Some((offset, length)) => if offset + length > u64::MAX {
            Err(WorkerError::InvalidArgument("read range overflows u64"))
        } else if clamp {
            if offset >= logical_length {
                Ok((logical_length, 0))
            } else if offset + length > logical_length {
                Ok((offset, (logical_length - offset) as u64))
            } else {
                Ok((offset, length))
            }
        } else if offset + length > logical_length {
            Err(WorkerError::InvalidArgument("read range extends beyond current value"))
        } else {
            Ok((offset, length))
        },
    }
}

/// A clamped read of a value never fails for its range's sake, and gives what of the range lies
/// inside the value.
pub proof fn a_clamped_read_stays_inside_the_value(
    offset: u64,
    length: u64,
    logical_length: u64,
)
    requires
        offset + length <= u64::MAX,
    ensures
        ({
            let (start, count) = read_range(Some((offset, length)), logical_length, true)->Ok_0;
            &&& read_range(Some((offset, length)), logical_length, true) is Ok
            &&& start + count <= logical_length
            &&& count <= length
            &&& count > 0 ==> start == offset && (count == length || start + count
                == logical_length)
            &&& count == 0 ==> length == 0 || logical_length <= offset
        }),
{
}

/// A read without a range is of the whole value. A read of a range is of exactly that range: one
/// that is not to be clamped succeeds if and only if the value reaches to the range's end, and one
/// that is to be clamped loses what lies behind the value's end and nothing else.
pub proof fn a_read_is_of_the_range_that_was_asked_for(
    offset: u64,
    length: u64,
    logical_length: u64,
    clamp: bool,
)
    ensures
        read_range(None, logical_length, clamp) == Ok::<(u64, u64), WorkerError>(
            (0, logical_length),
        ),
        read_range(Some((offset, length)), logical_length, false) is Ok <==> offset + length
            <= logical_length,
        offset + length <= logical_length ==> read_range(
            Some((offset, length)),
            logical_length,
            clamp,
        ) == Ok::<(u64, u64), WorkerError>((offset, length)),
        offset + length <= u64::MAX && offset < logical_length < offset + length ==> read_range(
            Some((offset, length)),
            logical_length,
            true,
        ) == Ok::<(u64, u64), WorkerError>((offset, (logical_length - offset) as u64)),
        offset + length <= u64::MAX && logical_length <= offset ==> read_range(
            Some((offset, length)),
            logical_length,
            true,
        ) == Ok::<(u64, u64), WorkerError>((logical_length, 0)),
        offset + length > u64::MAX ==> read_range(
            Some((offset, length)),
            logical_length,
            clamp,
        ) is Err,
{
}

/// Whether a read's bytes are returned with the answer.
pub open spec fn goes_inline(requested_length: u64, shared_memory: bool, max_inline_bytes: u64) -> bool {
    let limit = if max_inline_bytes < MAX_INLINE_READ_BYTES {
        max_inline_bytes
    } else {
        MAX_INLINE_READ_BYTES
    };
    !shared_memory && limit != 0 && requested_length <= limit
}

/// The error of a read from shared memory that cannot be had.
pub open spec fn shm_error(error: ArenaError) -> WorkerError {
    match error {
        ArenaError::RegionAccessDenied => WorkerError::ArenaAccessDenied,
        _ => WorkerError::ArenaStaleHandle,
    }
}

/// Tickets on their way to a client.
#[verifier::ext_equal]
pub struct Handout {
    pub next_transfer: u64,
    pub downloads: Map<u64, DownloadTicket>,
    pub segments: Seq<ReadTicketSegment>,
    pub allocations: Seq<u64>,
    pub fault: Option<WorkerError>,
}

/// Who reads what in a request.
pub struct Reader {
    pub session_id: u64,
    pub read_request_id: u64,
    pub shared_memory: bool,
    pub view_epoch: u64,
    pub now: u64,
}

impl Reader {
    /// A download of a slice.
    pub open spec fn download(self, read: ArenaReadTicket) -> DownloadTicket {
        DownloadTicket {
            read,
            session_id: self.session_id,
            read_request_id: self.read_request_id,
            expires_at: later(self.now, DOWNLOAD_TTL),
        }
    }
}

impl Handout {
    /// The same with one more part that is downloaded.
    pub open spec fn with_download(self, reader: Reader, offset: u64, read: ArenaReadTicket) -> Handout {
        Handout {
            next_transfer: (self.next_transfer + 1) as u64,
            downloads: self.downloads.insert(self.next_transfer, reader.download(read)),
            segments: self.segments.push(
                ReadTicketSegment {
                    logical_offset: offset,
                    target: ReadTarget::Grpc { transfer_id: self.next_transfer },
                    payload_length: read.length,
                },
            ),
            ..self
        }
    }

    /// The same with one more part.
    pub open spec fn step(self, arena: ArenaView, reader: Reader, part: PartView) -> Handout {
        match part {
            PartView::Zero { offset, length } => Handout {
                segments: self.segments.push(
                    ReadTicketSegment {
                        logical_offset: offset,
                        target: ReadTarget::Zero { length },
                        payload_length: length,
                    },
                ),
                ..self
            },
            PartView::Block { offset, read } => if reader.shared_memory {
                match arena.shm_read(
                    reader.session_id,
                    read,
                    self.next_transfer,
                    reader.view_epoch,
                ) {
                    Err(error) => Handout {
                        next_transfer: (self.next_transfer + 1) as u64,
                        fault: Some(shm_error(error)),
                        ..self
                    },
                    Ok(Some(descriptor)) => Handout {
                        next_transfer: (self.next_transfer + 1) as u64,
                        segments: self.segments.push(
                            ReadTicketSegment {
                                logical_offset: offset,
                                target: ReadTarget::Shm(descriptor),
                                payload_length: read.length,
                            },
                        ),
                        allocations: self.allocations.push(descriptor.allocation_id),
                        ..self
                    },
                    Ok(None) => if payload_fault(read.length) is Some {
                        Handout {
                            next_transfer: (self.next_transfer + 1) as u64,
                            fault: payload_fault(read.length),
                            ..self
                        }
                    } else {
                        self.with_download(reader, offset, read)
                    },
                }
            } else if payload_fault(read.length) is Some {
                Handout { fault: payload_fault(read.length), ..self }
            } else {
                self.with_download(reader, offset, read)
            },
            PartView::Remote { .. } => self,
        }
    }

    /// The same with more parts, up to the first for which there is no ticket.
    pub open spec fn steps(self, arena: ArenaView, reader: Reader, parts: Seq<PartView>) -> Handout
        decreases parts.len(),
    {
        if parts.len() == 0 {
            self
        } else {
            let earlier = self.steps(arena, reader, parts.drop_last());
            if earlier.fault is Some {
                earlier
            } else {
                earlier.step(arena, reader, parts.last())
            }
        }
    }
}

impl NodeView {
    /// Why a read request has ended. A request without a number never has.
    pub open spec fn finished_fault(self, session_id: u64, read_request_id: u64) -> Option<WorkerError> {
        if read_request_id == 0 {
            None
        } else if !self.sessions.live(session_id) {
            Some(WorkerError::UnknownSession)
        } else if read_request_id
            <= self.sessions.sessions[session_id].finished_read_request_through {
            Some(WorkerError::InvalidArgument("read request has already finished"))
        } else {
            None
        }
    }

    /// Why a session cannot make a read request any more.
    pub open spec fn request_fault(self, session_id: u64, read_request_id: u64) -> Option<WorkerError> {
        if !self.sessions.live(session_id) {
            Some(WorkerError::UnknownSession)
        } else {
            self.finished_fault(session_id, read_request_id)
        }
    }

    /// The tickets that a client gets for parts.
    pub open spec fn handed_out(self, reader: Reader, parts: Seq<PartView>) -> Handout {
        Handout {
            next_transfer: self.next_transfer,
            downloads: self.downloads,
            segments: Seq::empty(),
            allocations: Seq::empty(),
            fault: None,
        }.steps(self.arena, reader, parts)
    }

    /// The state after tickets were handed out, and what the client is told of them.
    pub open spec fn ticketed(
        self,
        reader: Reader,
        version: u64,
        logical_length: u64,
        parts: Seq<PartView>,
    ) -> (NodeView, Result<GetView, WorkerError>) {
        let handout = self.handed_out(reader, parts);
        let next = NodeView {
            next_transfer: handout.next_transfer,
            downloads: handout.downloads,
            ..self
        };
        if handout.fault is Some {
            (next, Err(handout.fault->0))
        } else if handout.allocations.len() > 0 && reader.view_epoch == u64::MAX {
            (next, Err(WorkerError::InvalidArgument("view epoch exhausted")))
        } else {
            (
                if handout.allocations.len() > 0 {
                    NodeView {
                        sessions: self.sessions.with_session(
                            reader.session_id,
                            self.sessions.sessions[reader.session_id].viewing(
                                reader.read_request_id,
                                handout.allocations,
                            ),
                        ),
                        ..next
                    }
                } else {
                    next
                },
                Ok(
                    GetView::Ready(
                        TicketView {
                            read_request_id: reader.read_request_id,
                            version,
                            logical_length,
                            inline_value: None,
                            segments: handout.segments,
                        },
                    ),
                ),
            )
        }
    }

    /// The state after a read of a resolved layout, and what came of it.
    pub open spec fn read_layout(
        self,
        session_id: u64,
        read_scope_id: u64,
        read_request_id: u64,
        layout: LayoutView,
        sets: Seq<ReplicaSetView>,
        range: Option<(u64, u64)>,
        clamp: bool,
        max_inline_bytes: u64,
        now: u64,
    ) -> (NodeView, Result<GetView, WorkerError>) {
        if self.request_fault(session_id, read_request_id) is Some {
            (self, Err(self.request_fault(session_id, read_request_id)->0))
        } else if layout_fault(layout.logical_length, layout.extents) is Some {
            (self, Err(layout_fault(layout.logical_length, layout.extents)->0))
        } else {
            match read_range(range, layout.logical_length, clamp) {
                Err(error) => (self, Err(error)),
                Ok((start, length)) => match self.planned(
                    read_scope_id,
                    layout.extents,
                    sets,
                    start as int,
                    start + length,
                ) {
                    Err(error) => (self, Err(error)),
                    Ok((parts, missing)) => {
                        let session = self.sessions.sessions[session_id];
                        if missing.len() > 0 {
                            (self, Ok(GetView::NeedsRemoteBlocks(missing)))
                        } else if goes_inline(length, session.shared_memory, max_inline_bytes) {
                            (
                                self,
                                Ok(
                                    GetView::Ready(
                                        TicketView {
                                            read_request_id,
                                            version: layout.version,
                                            logical_length: layout.logical_length,
                                            inline_value: Some(gathered(self.arena, parts)),
                                            segments: Seq::empty(),
                                        },
                                    ),
                                ),
                            )
                        } else {
                            self.ticketed(
                                Reader {
                                    session_id,
                                    read_request_id,
                                    shared_memory: session.shared_memory,
                                    view_epoch: session.next_view_epoch,
                                    now,
                                },
                                layout.version,
                                layout.logical_length,
                                parts,
                            )
                        }
                    },
                },
            }
        }
    }

    /// What came of reading a whole value.
    pub open spec fn materialized(
        self,
        session_id: u64,
        read_scope_id: u64,
        resolved: ResolvedView,
    ) -> Result<MaterializeView, WorkerError> {
        if !self.sessions.live(session_id) {
            Err(WorkerError::UnknownSession)
        } else if resolved.layout is None {
            Err(WorkerError::NotFound)
        } else {
            let layout = resolved.layout->0;
            if layout_fault(layout.logical_length, layout.extents) is Some {
                Err(layout_fault(layout.logical_length, layout.extents)->0)
            } else {
                match self.planned(
                    read_scope_id,
                    layout.extents,
                    resolved.block_replicas,
                    0,
                    layout.logical_length as int,
                ) {
                    Err(error) => Err(error),
                    Ok((parts, missing)) => if missing.len() > 0 {
                        Ok(MaterializeView::NeedsRemoteBlocks(missing))
                    } else if layout.logical_length > usize::MAX {
                        Err(WorkerError::ResourceExhausted)
                    } else {
                        Ok(
                            MaterializeView::Ready {
                                version: layout.version,
                                bytes: gathered(self.arena, parts),
                            },
                        )
                    },
                }
            }
        }
    }
}

/// The bytes that are returned with the answer to a read are those of the value, in the range
/// that was asked for.
pub proof fn an_inline_answer_holds_the_bytes_of_the_value(
    node: NodeView,
    session_id: u64,
    read_scope_id: u64,
    read_request_id: u64,
    layout: LayoutView,
    sets: Seq<ReplicaSetView>,
    range: Option<(u64, u64)>,
    clamp: bool,
    max_inline_bytes: u64,
    now: u64,
)
    requires
        node.arena.wf(),
        node.read_layout(
            session_id,
            read_scope_id,
            read_request_id,
            layout,
            sets,
            range,
            clamp,
            max_inline_bytes,
            now,
        ).1 matches Ok(GetView::Ready(ticket)) && ticket.inline_value is Some,
    ensures
        ({
            let ticket = node.read_layout(
                session_id,
                read_scope_id,
                read_request_id,
                layout,
                sets,
                range,
                clamp,
                max_inline_bytes,
                now,
            ).1->Ok_0->Ready_0;
            let (start, length) = read_range(range, layout.logical_length, clamp)->Ok_0;
            &&& ticket.version == layout.version
            &&& ticket.inline_value == Some(
                content(node.arena, layout.extents, start as int, start + length),
            )
        }),
{
    let (start, length) = read_range(range, layout.logical_length, clamp)->Ok_0;
    lemma_plan(node, read_scope_id, layout.extents, sets, start as int, start + length);
}

/// The bytes that a client gets with a segment of its ticket.
pub open spec fn segment_bytes(
    arena: ArenaView,
    downloads: Map<u64, DownloadTicket>,
    segment: ReadTicketSegment,
) -> Seq<u8> {
    match segment.target {
        ReadTarget::Zero { length } => Seq::new(length as nat, |i: int| 0u8),
        ReadTarget::Grpc { transfer_id } => arena.ticket_bytes(downloads[transfer_id].read)->Ok_0,
        ReadTarget::Shm(descriptor) => arena.ticket_bytes(
            ArenaReadTicket {
                handle: AllocationHandle { allocation_id: descriptor.allocation_id },
                offset: descriptor.offset,
                length: descriptor.length,
            },
        )->Ok_0,
    }
}

/// The bytes that a client gets with its ticket.
pub open spec fn ticket_value(
    arena: ArenaView,
    downloads: Map<u64, DownloadTicket>,
    segments: Seq<ReadTicketSegment>,
) -> Seq<u8>
    decreases segments.len(),
{
    if segments.len() == 0 {
        Seq::empty()
    } else {
        ticket_value(arena, downloads, segments.drop_last()) + segment_bytes(
            arena,
            downloads,
            segments.last(),
        )
    }
}

/// Whether the downloads of some segments have names below a number, and are there.
spec fn named_below(
    downloads: Map<u64, DownloadTicket>,
    segments: Seq<ReadTicketSegment>,
    next: u64,
) -> bool {
    forall|i: int|
        #![trigger segments[i]]
        0 <= i < segments.len() ==> match segments[i].target {
            ReadTarget::Grpc { transfer_id } => transfer_id < next && downloads.contains_key(
                transfer_id,
            ),
            _ => true,
        }
}

proof fn lemma_older_segments(
    arena: ArenaView,
    downloads: Map<u64, DownloadTicket>,
    segments: Seq<ReadTicketSegment>,
    next: u64,
    ticket: DownloadTicket,
)
    requires
        named_below(downloads, segments, next),
    ensures
        ticket_value(arena, downloads.insert(next, ticket), segments) == ticket_value(
            arena,
            downloads,
            segments,
        ),
    decreases segments.len(),
{
    if segments.len() > 0 {
        let rest = segments.drop_last();
        assert forall|i: int| #![trigger rest[i]] 0 <= i < rest.len() implies match rest[i].target {
            ReadTarget::Grpc { transfer_id } => transfer_id < next && downloads.contains_key(
                transfer_id,
            ),
            _ => true,
        } by {
            assert(rest[i] == segments[i]);
        }
        lemma_older_segments(arena, downloads, rest, next, ticket);
        assert(segments.last() == segments[segments.len() - 1]);
    }
}

proof fn lemma_tickets_hold(node: NodeView, reader: Reader, parts: Seq<PartView>)
    requires
        node.next_transfer + parts.len() <= u64::MAX,
        node.handed_out(reader, parts).fault is None,
        forall|i: int| #![trigger parts[i]] 0 <= i < parts.len() ==> is_local(parts[i]),
    ensures
        ({
            let handout = node.handed_out(reader, parts);
            &&& ticket_value(node.arena, handout.downloads, handout.segments) == gathered(
                node.arena,
                parts,
            )
            &&& named_below(handout.downloads, handout.segments, handout.next_transfer)
            &&& handout.next_transfer <= node.next_transfer + parts.len()
            &&& handout.allocations.len() > 0 ==> reader.shared_memory && node.arena.shared
        }),
    decreases parts.len(),
{
    let handout = node.handed_out(reader, parts);
    if parts.len() > 0 {
        let rest = parts.drop_last();
        let earlier = node.handed_out(reader, rest);
        assert forall|i: int| #![trigger rest[i]] 0 <= i < rest.len() implies is_local(rest[i]) by {
            assert(rest[i] == parts[i]);
        }
        lemma_tickets_hold(node, reader, rest);
        assert(is_local(parts[parts.len() - 1]));
        assert(handout == earlier.step(node.arena, reader, parts.last()));
        assert(handout.segments.drop_last() =~= earlier.segments);
        assert forall|i: int|
            #![trigger handout.segments[i]]
            0 <= i < handout.segments.len() implies match handout.segments[i].target {
            ReadTarget::Grpc { transfer_id } => transfer_id < handout.next_transfer
                && handout.downloads.contains_key(transfer_id),
            _ => true,
        } by {
            if i < earlier.segments.len() {
                assert(handout.segments[i] == earlier.segments[i]);
            }
        }
        if let PartView::Block { offset, read } = parts.last() {
            lemma_older_segments(
                node.arena,
                earlier.downloads,
                earlier.segments,
                earlier.next_transfer,
                reader.download(read),
            );
        }
    }
}

/// A client that fetches every segment of its ticket has the bytes of the value, in the range that
/// was asked for. It looks at shared memory, and so takes a view, only where both it and the node
/// have shared memory.
pub proof fn a_ticket_holds_the_bytes_of_the_value(
    node: NodeView,
    session_id: u64,
    read_scope_id: u64,
    read_request_id: u64,
    layout: LayoutView,
    sets: Seq<ReplicaSetView>,
    range: Option<(u64, u64)>,
    clamp: bool,
    max_inline_bytes: u64,
    now: u64,
)
    requires
        node.arena.wf(),
        node.next_transfer + layout.extents.len() <= u64::MAX,
        node.read_layout(
            session_id,
            read_scope_id,
            read_request_id,
            layout,
            sets,
            range,
            clamp,
            max_inline_bytes,
            now,
        ).1 matches Ok(GetView::Ready(ticket)) && ticket.inline_value is None,
    ensures
        ({
            let (next, outcome) = node.read_layout(
                session_id,
                read_scope_id,
                read_request_id,
                layout,
                sets,
                range,
                clamp,
                max_inline_bytes,
                now,
            );
            let ticket = outcome->Ok_0->Ready_0;
            let (start, length) = read_range(range, layout.logical_length, clamp)->Ok_0;
            &&& ticket.version == layout.version
            &&& next.arena == node.arena
            &&& ticket_value(next.arena, next.downloads, ticket.segments) == content(
                node.arena,
                layout.extents,
                start as int,
                start + length,
            )
            &&& next.sessions != node.sessions ==> node.sessions.sessions[session_id].shared_memory
                && node.arena.shared
        }),
{
    let (start, length) = read_range(range, layout.logical_length, clamp)->Ok_0;
    let end = start + length;
    lemma_plan(node, read_scope_id, layout.extents, sets, start as int, end);
    lemma_plan_length(node, read_scope_id, layout.extents, sets, start as int, end);
    let (parts, missing) = node.planned(
        read_scope_id,
        layout.extents,
        sets,
        start as int,
        end,
    )->Ok_0;
    let session = node.sessions.sessions[session_id];
    let reader = Reader {
        session_id,
        read_request_id,
        shared_memory: session.shared_memory,
        view_epoch: session.next_view_epoch,
        now,
    };
    lemma_tickets_hold(node, reader, parts);
}

impl NodeView {
    /// The bytes that a client gets for a read, with the answer or with its ticket.
    pub open spec fn answered(self, ticket: TicketView) -> Seq<u8> {
        match ticket.inline_value {
            Some(bytes) => bytes,
            None => ticket_value(self.arena, self.downloads, ticket.segments),
        }
    }
}

/// What a client gets for a read, with the answer or with its ticket, is the value's bytes in the
/// range that it asked for: from the first to the last where it asked for no range, from the
/// range's start to its end where the value reaches so far, and to the value's end where the range
/// was to be clamped. A range that was not to be clamped is never cut short.
pub proof fn a_read_gives_the_bytes_that_were_asked_for(
    node: NodeView,
    session_id: u64,
    read_scope_id: u64,
    read_request_id: u64,
    layout: LayoutView,
    sets: Seq<ReplicaSetView>,
    range: Option<(u64, u64)>,
    clamp: bool,
    max_inline_bytes: u64,
    now: u64,
)
    requires
        node.arena.wf(),
        node.next_transfer + layout.extents.len() <= u64::MAX,
        node.read_layout(
            session_id,
            read_scope_id,
            read_request_id,
            layout,
            sets,
            range,
            clamp,
            max_inline_bytes,
            now,
        ).1 matches Ok(GetView::Ready(_)),
    ensures
        ({
            let (next, outcome) = node.read_layout(
                session_id,
                read_scope_id,
                read_request_id,
                layout,
                sets,
                range,
                clamp,
                max_inline_bytes,
                now,
            );
            let ticket = outcome->Ok_0->Ready_0;
            let bytes = next.answered(ticket);
            let value: int = layout.logical_length as int;
            let (from, asked): (int, int) = match range {
                Some((offset, length)) => (offset as int, length as int),
                None => (0, value),
            };
            &&& ticket.version == layout.version
            &&& ticket.logical_length == layout.logical_length
            &&& ticket.read_request_id == read_request_id
            &&& range is None ==> bytes.len() == value
            &&& range is Some && !clamp ==> from + asked <= value && bytes.len()
                == asked
            &&& range is Some && clamp && from + asked <= value ==> bytes.len()
                == asked
            &&& range is Some && clamp && from + asked > value ==> bytes.len() == if from
                <= value {
                value - from
            } else {
                0
            }
            &&& forall|i: int|
                #![trigger bytes[i]]
                0 <= i < bytes.len() ==> bytes[i] == byte_at(
                    node.arena,
                    layout.extents,
                    from + i,
                )
        }),
{
    let (next, outcome) = node.read_layout(
        session_id,
        read_scope_id,
        read_request_id,
        layout,
        sets,
        range,
        clamp,
        max_inline_bytes,
        now,
    );
    if outcome->Ok_0->Ready_0.inline_value is Some {
        an_inline_answer_holds_the_bytes_of_the_value(
            node,
            session_id,
            read_scope_id,
            read_request_id,
            layout,
            sets,
            range,
            clamp,
            max_inline_bytes,
            now,
        );
    } else {
        a_ticket_holds_the_bytes_of_the_value(
            node,
            session_id,
            read_scope_id,
            read_request_id,
            layout,
            sets,
            range,
            clamp,
            max_inline_bytes,
            now,
        );
    }
}

/// Only an answer that lets a client look at shared memory takes one of its views. A read that
/// fails, that waits for blocks, or whose bytes are returned or downloaded takes none.
pub proof fn only_reads_of_shared_memory_take_a_view(
    node: NodeView,
    session_id: u64,
    read_scope_id: u64,
    read_request_id: u64,
    layout: LayoutView,
    sets: Seq<ReplicaSetView>,
    range: Option<(u64, u64)>,
    clamp: bool,
    max_inline_bytes: u64,
    now: u64,
)
    ensures
        ({
            let (next, outcome) = node.read_layout(
                session_id,
                read_scope_id,
                read_request_id,
                layout,
                sets,
                range,
                clamp,
                max_inline_bytes,
                now,
            );
            next.sessions != node.sessions ==> {
                &&& outcome matches Ok(GetView::Ready(ticket)) && ticket.inline_value is None
                &&& node.sessions.sessions[session_id].shared_memory
                &&& next.sessions.sessions[session_id].next_view_epoch
                    == node.sessions.sessions[session_id].next_view_epoch + 1
            }
        }),
{
    let session = node.sessions.sessions[session_id];
    if let Ok((start, length)) = read_range(range, layout.logical_length, clamp) {
        if let Ok((parts, missing)) = node.planned(
            read_scope_id,
            layout.extents,
            sets,
            start as int,
            start + length,
        ) {
            let reader = Reader {
                session_id,
                read_request_id,
                shared_memory: session.shared_memory,
                view_epoch: session.next_view_epoch,
                now,
            };
            lemma_views_need_sharing(node, reader, parts);
        }
    }
}

proof fn lemma_views_need_sharing(node: NodeView, reader: Reader, parts: Seq<PartView>)
    ensures
        node.handed_out(reader, parts).allocations.len() > 0 ==> reader.shared_memory,
    decreases parts.len(),
{
    if parts.len() > 0 {
        lemma_views_need_sharing(node, reader, parts.drop_last());
    }
}

/// A value that was read as a whole has the bytes of the value.
pub proof fn a_whole_read_holds_the_bytes_of_the_value(
    node: NodeView,
    session_id: u64,
    read_scope_id: u64,
    resolved: ResolvedView,
)
    requires
        node.wf(),
        node.materialized(session_id, read_scope_id, resolved) matches Ok(
            MaterializeView::Ready { .. },
        ),
    ensures
        node.materialized(session_id, read_scope_id, resolved)->Ok_0->bytes == content(
            node.arena,
            resolved.layout->0.extents,
            0,
            resolved.layout->0.logical_length as int,
        ),
{
    let layout = resolved.layout->0;
    lemma_plan(
        node,
        read_scope_id,
        layout.extents,
        resolved.block_replicas,
        0,
        layout.logical_length as int,
    );
}

/// The parts of which all are here.
fn local_parts(parts: &Vec<DataCorePlannedReadPart>) -> (local: Vec<PlannedReadPart>)
    requires
        forall|i: int|
            #![trigger views(parts@)[i]]
            0 <= i < parts@.len() ==> is_local(views(parts@)[i]),
    ensures
        views(local@) == views(parts@),
{
    let ghost all = views(parts@);
    let mut local: Vec<PlannedReadPart> = Vec::with_capacity(parts.len());
    let mut i: usize = 0;
    while i < parts.len()
        invariant
            i <= parts@.len(),
            all == views(parts@),
            forall|j: int| #![trigger all[j]] 0 <= j < parts@.len() ==> is_local(all[j]),
            views(local@) =~= all.take(i as int),
        decreases parts.len() - i,
    {
        let ghost so_far = local@;
        proof {
            lemma_views_take(parts@, i as int);
            assert(is_local(all[i as int]));
        }
        match &parts[i] {
            DataCorePlannedReadPart::Block { logical_offset, read } => {
                local.push(
                    PlannedReadPart::Block { logical_offset: *logical_offset, read: *read },
                );
            },
            DataCorePlannedReadPart::Zero { logical_offset, length } => {
                local.push(
                    PlannedReadPart::Zero { logical_offset: *logical_offset, length: *length },
                );
            },
            DataCorePlannedReadPart::Remote { .. } => {},
        }
        proof {
            lemma_views_push(so_far, local@.last());
        }
        i = i + 1;
    }
    local
}

/// Appends zeros.
pub fn append_zeros(target: &mut Vec<u8>, count: u64)
    ensures
        final(target)@ == old(target)@ + Seq::new(count as nat, |i: int| 0u8),
{
    let ghost before = target@;
    let mut i: u64 = 0;
    while i < count
        invariant
            i <= count,
            target@ =~= before + Seq::new(i as nat, |i: int| 0u8),
        decreases count - i,
    {
        target.push(0);
        i = i + 1;
    }
}

/// Fixes the range of a read in a value of some length.
pub fn normalize_read_range(
    range: Option<(u64, u64)>,
    logical_length: u64,
    clamp_range: bool,
) -> (fixed: Result<(u64, u64), WorkerError>)
    ensures
        fixed == read_range(range, logical_length, clamp_range),
{
    let (offset, length): (u64, u64) = match range {
        Some(range) => range,
        None => return Ok((0, logical_length)),
    };
    let request_end: u64 = match offset.checked_add(length) {
        Some(end) => end,
        None => return Err(WorkerError::InvalidArgument("read range overflows u64")),
    };
    if !clamp_range {
        if request_end > logical_length {
            return Err(WorkerError::InvalidArgument("read range extends beyond current value"));
        }
        return Ok((offset, length));
    }
    if offset >= logical_length {
        return Ok((logical_length, 0));
    }
    if request_end > logical_length {
        return Ok((offset, logical_length - offset));
    }
    Ok((offset, length))
}

/// The answer to a read that begins: its scope, or why it cannot begin.
pub open spec fn scope_or(fault: Option<WorkerError>, scope_id: u64) -> Result<u64, WorkerError> {
    match fault {
        Some(error) => Err(error),
        None => Ok(scope_id),
    }
}

/// Whether `after` is the state once the answer about a new read has gone out: where nobody takes
/// the answer, the read is over again.
pub open spec fn scope_answered(
    before: NodeView,
    after: NodeView,
    gone: bool,
    begun: Result<u64, WorkerError>,
    waiters: Seq<u64>,
) -> bool {
    match begun {
        Ok(scope_id) => if gone {
            before.scope_added().scope_ended(scope_id, after, waiters)
        } else {
            after == before.scope_added() && waiters == Seq::<u64>::empty()
        },
        Err(_) => after == before && waiters == Seq::<u64>::empty(),
    }
}

impl NodeView {
    /// The state after a read began.
    pub open spec fn scope_added(self) -> NodeView {
        NodeView {
            next_read_scope: (self.next_read_scope + 1) as u64,
            scopes: self.scopes.insert(self.next_read_scope),
            ..self
        }
    }

    /// Why a read cannot begin for a session.
    pub open spec fn scope_fault(self, session_id: u64) -> Option<WorkerError> {
        if !self.sessions.live(session_id) {
            Some(WorkerError::UnknownSession)
        } else {
            self.own_scope_fault()
        }
    }

    /// Why a read of the node itself cannot begin.
    pub open spec fn own_scope_fault(self) -> Option<WorkerError> {
        if self.next_read_scope == u64::MAX {
            Some(WorkerError::InvalidArgument("read scope id exhausted"))
        } else {
            None
        }
    }

    /// Whether `next` is the state after a read ended, and the waiters are those whose retirement
    /// went on.
    pub open spec fn scope_ended(self, scope_id: u64, next: NodeView, waiters: Seq<u64>) -> bool {
        (NodeView { scopes: self.scopes.remove(scope_id), ..self }).advanced(next, waiters)
    }
}

/// A read that began is under way if somebody waits for it, and is over if nobody does. No other read is
/// touched.
pub proof fn a_begun_read_is_under_way_if_somebody_waits(
    before: NodeView,
    after: NodeView,
    gone: bool,
    begun: Result<u64, WorkerError>,
    waiters: Seq<u64>,
    scope_id: u64,
)
    requires
        before.wf(),
        scope_answered(before, after, gone, begun, waiters),
        begun matches Ok(begun_id) ==> begun_id == before.next_read_scope,
    ensures
        begun is Ok && !gone ==> after.scopes.contains(begun->Ok_0),
        begun is Ok && gone ==> !after.scopes.contains(begun->Ok_0),
        begun is Ok && scope_id != begun->Ok_0 ==> after.scopes.contains(scope_id)
            == before.scopes.contains(scope_id),
        begun is Err ==> after == before,
{
}

impl NodeState {
    /// Begins a read for a session. Blocks that the read may use are kept until it ends.
    pub fn begin_read_scope(&mut self, session_id: u64) -> (begun: Result<u64, WorkerError>)
        requires
            old(self)@.wf(),
        ensures
            final(self)@.wf(),
            begun == scope_or(old(self)@.scope_fault(session_id), old(self)@.next_read_scope),
            final(self)@ == (if begun is Ok {
                old(self)@.scope_added()
            } else {
                old(self)@
            }),
    {
        match self.sessions.live_session(session_id) {
            Ok(_) => {},
            Err(error) => return Err(error),
        }
        self.begin_read_scope_unchecked()
    }

    /// Begins a read of the node's own.
    pub fn begin_read_scope_unchecked(&mut self) -> (begun: Result<u64, WorkerError>)
        requires
            old(self)@.wf(),
        ensures
            final(self)@.wf(),
            begun == scope_or(old(self)@.own_scope_fault(), old(self)@.next_read_scope),
            final(self)@ == (if begun is Ok {
                old(self)@.scope_added()
            } else {
                old(self)@
            }),
    {
        let scope_id: u64 = self.next_read_scope;
        if scope_id == u64::MAX {
            return Err(WorkerError::InvalidArgument("read scope id exhausted"));
        }
        self.next_read_scope = scope_id + 1;
        self.active_read_scopes.insert(scope_id);
        Ok(scope_id)
    }

    /// Begins a read for a session and answers with it. Where the asker is gone, the read ends at
    /// once, so that no retirement waits for it.
    pub fn begin_read_scope_reply(&mut self, session_id: u64, gone: bool) -> (begun: (
        Result<u64, WorkerError>,
        Vec<u64>,
    ))
        requires
            old(self)@.wf(),
        ensures
            final(self)@.wf(),
            begun.0 == scope_or(old(self)@.scope_fault(session_id), old(self)@.next_read_scope),
            scope_answered(old(self)@, final(self)@, gone, begun.0, begun.1@),
    {
        let begun: Result<u64, WorkerError> = self.begin_read_scope(session_id);
        let mut waiters: Vec<u64> = Vec::new();
        if gone {
            if let Ok(scope_id) = &begun {
                waiters = self.finish_read_scope(*scope_id);
            }
        }
        (begun, waiters)
    }

    /// Begins a read of the node itself and answers with it. Where the asker is gone, the read ends
    /// at once.
    pub fn begin_data_core_read_scope_reply(&mut self, gone: bool) -> (begun: (
        Result<u64, WorkerError>,
        Vec<u64>,
    ))
        requires
            old(self)@.wf(),
        ensures
            final(self)@.wf(),
            begun.0 == scope_or(old(self)@.own_scope_fault(), old(self)@.next_read_scope),
            scope_answered(old(self)@, final(self)@, gone, begun.0, begun.1@),
    {
        let begun: Result<u64, WorkerError> = self.begin_read_scope_unchecked();
        let mut waiters: Vec<u64> = Vec::new();
        if gone {
            if let Ok(scope_id) = &begun {
                waiters = self.finish_read_scope(*scope_id);
            }
        }
        (begun, waiters)
    }

    /// Ends a read, and returns who waited for that.
    pub fn finish_read_scope(&mut self, scope_id: u64) -> (waiters: Vec<u64>)
        requires
            old(self)@.wf(),
        ensures
            final(self)@.wf(),
            old(self)@.scope_ended(scope_id, final(self)@, waiters@),
    {
        let ghost before = self@;
        self.active_read_scopes.remove(&scope_id);
        assert(self@ =~= NodeView { scopes: before.scopes.remove(scope_id), ..before });
        self.advance_retirements()
    }

    /// Fails for a read request that has ended.
    pub fn reject_finished_read_request(&self, session_id: u64, read_request_id: u64) -> (rejected:
        Result<(), WorkerError>)
        ensures
            rejected == checked(self@.finished_fault(session_id, read_request_id)),
    {
        if read_request_id == 0 {
            return Ok(());
        }
        match self.sessions.live_session(session_id) {
            Ok(session) => if read_request_id <= session.finished_read_request_through {
                Err(WorkerError::InvalidArgument("read request has already finished"))
            } else {
                Ok(())
            },
            Err(error) => Err(error),
        }
    }

    /// The bytes of parts that are all here.
    fn gather(&self, parts: &Vec<PlannedReadPart>) -> (bytes: Vec<u8>)
        requires
            forall|i: int|
                #![trigger views(parts@)[i]]
                0 <= i < parts@.len() ==> readable(self@.arena, views(parts@)[i]),
        ensures
            bytes@ == gathered(self@.arena, views(parts@)),
    {
        let ghost all = views(parts@);
        let mut bytes: Vec<u8> = Vec::new();
        let mut i: usize = 0;
        assert(all.take(0) =~= Seq::empty());
        while i < parts.len()
            invariant
                i <= parts@.len(),
                all == views(parts@),
                forall|j: int|
                    #![trigger all[j]]
                    0 <= j < parts@.len() ==> readable(self@.arena, all[j]),
                bytes@ == gathered(self@.arena, all.take(i as int)),
            decreases parts.len() - i,
        {
            proof {
                lemma_views_take(parts@, i as int);
                assert(readable(self@.arena, all[i as int]));
            }
            match parts[i] {
                PlannedReadPart::Zero { length, .. } => {
                    append_zeros(&mut bytes, length);
                },
                PlannedReadPart::Block { read, .. } => {
                    match self.arena.read_ticket(read) {
                        Ok(part) => {
                            append_bytes(&mut bytes, &part);
                        },
                        Err(_) => {},
                    }
                },
            }
            i = i + 1;
        }
        assert(all.take(i as int) =~= all);
        bytes
    }

    /// The bytes of a read, where they are few enough to be returned with the answer.
    pub fn inline_read_value(
        &self,
        requested_length: u64,
        shared_memory: bool,
        max_inline_bytes: u64,
        planned: &Vec<PlannedReadPart>,
    ) -> (value: Option<Vec<u8>>)
        requires
            forall|i: int|
                #![trigger views(planned@)[i]]
                0 <= i < planned@.len() ==> readable(self@.arena, views(planned@)[i]),
        ensures
            match value {
                Some(bytes) => goes_inline(requested_length, shared_memory, max_inline_bytes)
                    && bytes@ == gathered(self@.arena, views(planned@)),
                None => !goes_inline(requested_length, shared_memory, max_inline_bytes),
            },
    {
        let limit: u64 = if max_inline_bytes < MAX_INLINE_READ_BYTES {
            max_inline_bytes
        } else {
            MAX_INLINE_READ_BYTES
        };
        if shared_memory || limit == 0 || requested_length > limit {
            return None;
        }
        Some(self.gather(planned))
    }

    /// Hands a download out.
    fn grpc_download_target_with_id(
        &mut self,
        session_id: u64,
        read: ArenaReadTicket,
        transfer_id: u64,
        read_request_id: u64,
        now: u64,
    ) -> (target: ReadTarget)
        ensures
            target == (ReadTarget::Grpc { transfer_id }),
            final(self)@ == (NodeView {
                downloads: old(self)@.downloads.insert(
                    transfer_id,
                    DownloadTicket {
                        read,
                        session_id,
                        read_request_id,
                        expires_at: later(now, DOWNLOAD_TTL),
                    },
                ),
                ..old(self)@
            }),
    {
        self.downloads.insert(
            transfer_id,
            DownloadTicket {
                read,
                session_id,
                read_request_id,
                expires_at: moment_after(now, DOWNLOAD_TTL),
            },
        );
        ReadTarget::Grpc { transfer_id }
    }

    /// Hands tickets out for parts that are all here.
    fn hand_out(&mut self, reader: &Reader, planned: &Vec<PlannedReadPart>) -> (handed: (
        Option<WorkerError>,
        Vec<ReadTicketSegment>,
        Vec<u64>,
    ))
        requires
            old(self)@.wf(),
            old(self)@.next_transfer + planned@.len() <= u64::MAX,
        ensures
            final(self)@.wf(),
            ({
                let handout = old(self)@.handed_out(*reader, views(planned@));
                &&& final(self)@ == (NodeView {
                    next_transfer: handout.next_transfer,
                    downloads: handout.downloads,
                    ..old(self)@
                })
                &&& handed.0 == handout.fault
                &&& handed.0 is None ==> handed.1@ == handout.segments && handed.2@
                    == handout.allocations
            }),
    {
        let ghost before = self@;
        let ghost all = views(planned@);
        let mut segments: Vec<ReadTicketSegment> = Vec::with_capacity(planned.len());
        let mut allocations: Vec<u64> = Vec::new();
        let mut i: usize = 0;
        assert(all.take(0) =~= Seq::empty());
        assert(segments@ =~= Seq::empty());
        assert(allocations@ =~= Seq::empty());
        while i < planned.len()
            invariant
                i <= planned@.len(),
                all == views(planned@),
                before == old(self)@,
                self@.wf(),
                before.next_transfer + planned@.len() <= u64::MAX,
                self@.next_transfer <= before.next_transfer + i,
                ({
                    let handout = before.handed_out(*reader, all.take(i as int));
                    &&& self@ == (NodeView {
                        next_transfer: handout.next_transfer,
                        downloads: handout.downloads,
                        ..before
                    })
                    &&& handout.fault is None
                    &&& segments@ == handout.segments
                    &&& allocations@ == handout.allocations
                }),
            decreases planned.len() - i,
        {
            let ghost so_far = before.handed_out(*reader, all.take(i as int));
            proof {
                lemma_views_take(planned@, i as int);
                assert(before.handed_out(*reader, all.take(i + 1)) == so_far.step(
                    before.arena,
                    *reader,
                    all[i as int],
                ));
            }
            let part = planned[i];
            let logical_offset: u64 = planned_read_part_offset(&part);
            match part {
                PlannedReadPart::Zero { length, .. } => {
                    segments.push(
                        ReadTicketSegment {
                            logical_offset,
                            target: ReadTarget::Zero { length },
                            payload_length: length,
                        },
                    );
                },
                PlannedReadPart::Block { read, .. } => {
                    let mut target: Option<ReadTarget> = None;
                    if reader.shared_memory {
                        let transfer_id: u64 = self.next_transfer;
                        self.next_transfer = transfer_id + 1;
                        match self.arena.shm_descriptor_for_read(
                            reader.session_id,
                            read,
                            transfer_id,
                            reader.view_epoch,
                        ) {
                            Err(error) => {
                                let mapped = map_arena_error(error);
                                proof {
                                    lemma_handout_stops(before, *reader, all, i + 1);
                                }
                                return (Some(mapped), segments, allocations);
                            },
                            Ok(Some(descriptor)) => {
                                allocations.push(descriptor.allocation_id);
                                target = Some(ReadTarget::Shm(descriptor));
                            },
                            Ok(None) => {
                                match validate_grpc_payload_bytes(read.length) {
                                    Ok(_) => {},
                                    Err(error) => {
                                        proof {
                                            lemma_handout_stops(before, *reader, all, i + 1);
                                        }
                                        return (Some(error), segments, allocations);
                                    },
                                }
                                target = Some(
                                    self.grpc_download_target_with_id(
                                        reader.session_id,
                                        read,
                                        transfer_id,
                                        reader.read_request_id,
                                        reader.now,
                                    ),
                                );
                            },
                        }
                    } else {
                        match validate_grpc_payload_bytes(read.length) {
                            Ok(_) => {},
                            Err(error) => {
                                proof {
                                    lemma_handout_stops(before, *reader, all, i + 1);
                                }
                                return (Some(error), segments, allocations);
                            },
                        }
                        let transfer_id: u64 = self.next_transfer;
                        self.next_transfer = transfer_id + 1;
                        target = Some(
                            self.grpc_download_target_with_id(
                                reader.session_id,
                                read,
                                transfer_id,
                                reader.read_request_id,
                                reader.now,
                            ),
                        );
                    }
                    if let Some(target) = target {
                        segments.push(
                            ReadTicketSegment {
                                logical_offset,
                                target,
                                payload_length: read.length,
                            },
                        );
                    }
                },
            }
            i = i + 1;
        }
        assert(all.take(i as int) =~= all);
        (None, segments, allocations)
    }

    /// Reads a resolved layout for a session: the bytes, or tickets for them, or the blocks that
    /// have to be pulled first. Only what is really handed out of shared memory takes one of the
    /// session's view epochs.
    pub fn get_resolved_parts(
        &mut self,
        session_id: u64,
        read_scope_id: u64,
        read_request_id: u64,
        layout: &VersionLayout,
        block_replicas: &Vec<BlockReplicaSet>,
        range: Option<(u64, u64)>,
        clamp_range: bool,
        max_inline_bytes: u64,
        now: u64,
    ) -> (outcome: Result<GetOutcome, WorkerError>)
        requires
            old(self)@.wf(),
            old(self)@.next_transfer + layout.extents@.len() <= u64::MAX,
        ensures
            final(self)@.wf(),
            ({
                let (next, result) = old(self)@.read_layout(
                    session_id,
                    read_scope_id,
                    read_request_id,
                    layout@,
                    views(block_replicas@),
                    range,
                    clamp_range,
                    max_inline_bytes,
                    now,
                );
                &&& final(self)@ == next
                &&& match outcome {
                    Ok(outcome) => result == Ok::<GetView, WorkerError>(outcome@),
                    Err(error) => result == Err::<GetView, WorkerError>(error),
                }
            }),
    {
        let ghost before = self@;
        match self.sessions.live_session(session_id) {
            Ok(_) => {},
            Err(error) => return Err(error),
        }
        match self.reject_finished_read_request(session_id, read_request_id) {
            Ok(_) => {},
            Err(error) => return Err(error),
        }
        match validate(layout.logical_length, &layout.extents) {
            Ok(_) => {},
            Err(error) => return Err(error),
        }
        let (start, length): (u64, u64) = match normalize_read_range(
            range,
            layout.logical_length,
            clamp_range,
        ) {
            Ok(fixed) => fixed,
            Err(error) => return Err(error),
        };
        let (parts, missing) = match self.plan_read(
            read_scope_id,
            &layout.extents,
            block_replicas,
            start,
            start + length,
        ) {
            Ok(plan) => plan,
            Err(error) => return Err(error),
        };
        proof {
            lemma_plan(
                before,
                read_scope_id,
                layout@.extents,
                views(block_replicas@),
                start as int,
                start + length,
            );
            lemma_plan_length(
                before,
                read_scope_id,
                layout@.extents,
                views(block_replicas@),
                start as int,
                start + length,
            );
        }
        if missing.len() > 0 {
            return Ok(GetOutcome::NeedsRemoteBlocks(missing));
        }
        assert(views(missing@).len() == 0);
        let planned: Vec<PlannedReadPart> = local_parts(&parts);
        let (shared_memory, view_epoch): (bool, u64) = match self.sessions.live_session(session_id) {
            Ok(session) => (session.shared_memory, session.next_view_epoch),
            Err(error) => return Err(error),
        };
        match self.inline_read_value(length, shared_memory, max_inline_bytes, &planned) {
            Some(value) => {
                let ticket = ReadTicket {
                    read_request_id,
                    version: layout.version,
                    logical_length: layout.logical_length,
                    inline_value: Some(value),
                    segments: Vec::new(),
                };
                assert(ticket.segments@ =~= Seq::empty());
                return Ok(GetOutcome::Ready(ticket));
            },
            None => {},
        }
        let reader = Reader { session_id, read_request_id, shared_memory, view_epoch, now };
        let (fault, segments, allocations) = self.hand_out(&reader, &planned);
        if let Some(error) = fault {
            return Err(error);
        }
        if allocations.len() > 0 {
            if view_epoch == u64::MAX {
                return Err(WorkerError::InvalidArgument("view epoch exhausted"));
            }
            self.sessions.begin_view(session_id, read_request_id, allocations);
        }
        Ok(
            GetOutcome::Ready(
                ReadTicket {
                    read_request_id,
                    version: layout.version,
                    logical_length: layout.logical_length,
                    inline_value: None,
                    segments,
                },
            ),
        )
    }

    /// Reads what the metadata service resolved for a session.
    pub fn get_resolved_for_request(
        &mut self,
        session_id: u64,
        read_scope_id: u64,
        read_request_id: u64,
        resolved: &ResolveObjectResponse,
        range: Option<(u64, u64)>,
        clamp_range: bool,
        max_inline_bytes: u64,
        now: u64,
    ) -> (outcome: Result<GetOutcome, WorkerError>)
        requires
            old(self)@.wf(),
            resolved.layout matches Some(layout) ==> old(self)@.next_transfer
                + layout.extents@.len() <= u64::MAX,
        ensures
            final(self)@.wf(),
            match resolved@.layout {
                None => final(self)@ == old(self)@ && (outcome matches Err(error)
                    && error is NotFound),
                Some(layout) => {
                    let (next, result) = old(self)@.read_layout(
                        session_id,
                        read_scope_id,
                        read_request_id,
                        layout,
                        resolved@.block_replicas,
                        range,
                        clamp_range,
                        max_inline_bytes,
                        now,
                    );
                    &&& final(self)@ == next
                    &&& match outcome {
                        Ok(outcome) => result == Ok::<GetView, WorkerError>(outcome@),
                        Err(error) => result == Err::<GetView, WorkerError>(error),
                    }
                },
            },
    {
        match &resolved.layout {
            None => Err(WorkerError::NotFound),
            Some(layout) => self.get_resolved_parts(
                session_id,
                read_scope_id,
                read_request_id,
                layout,
                &resolved.block_replicas,
                range,
                clamp_range,
                max_inline_bytes,
                now,
            ),
        }
    }

    /// Reads a whole value for a session.
    pub fn materialize_resolved(
        &self,
        session_id: u64,
        read_scope_id: u64,
        resolved: &ResolveObjectResponse,
    ) -> (outcome: Result<MaterializeOutcome, WorkerError>)
        requires
            self@.wf(),
        ensures
            match outcome {
                Ok(outcome) => self@.materialized(session_id, read_scope_id, resolved@) == Ok::<
                    MaterializeView,
                    WorkerError,
                >(outcome@),
                Err(error) => self@.materialized(session_id, read_scope_id, resolved@) == Err::<
                    MaterializeView,
                    WorkerError,
                >(error),
            },
    {
        match self.sessions.live_session(session_id) {
            Ok(_) => {},
            Err(error) => return Err(error),
        }
        let layout = match &resolved.layout {
            Some(layout) => layout,
            None => return Err(WorkerError::NotFound),
        };
        match validate(layout.logical_length, &layout.extents) {
            Ok(_) => {},
            Err(error) => return Err(error),
        }
        let (parts, missing) = match self.plan_read(
            read_scope_id,
            &layout.extents,
            &resolved.block_replicas,
            0,
            layout.logical_length,
        ) {
            Ok(plan) => plan,
            Err(error) => return Err(error),
        };
        proof {
            lemma_plan(
                self@,
                read_scope_id,
                layout@.extents,
                resolved@.block_replicas,
                0,
                layout.logical_length as int,
            );
        }
        if missing.len() > 0 {
            return Ok(MaterializeOutcome::NeedsRemoteBlocks(missing));
        }
        assert(views(missing@).len() == 0);
        if layout.logical_length > usize::MAX as u64 {
            return Err(WorkerError::ResourceExhausted);
        }
        let planned: Vec<PlannedReadPart> = local_parts(&parts);
        Ok(MaterializeOutcome::Ready { version: layout.version, bytes: self.gather(&planned) })
    }

    /// Fetches a download. It can be fetched once. Returns also who waited for that.
    pub fn download(&mut self, transfer_id: u64, now: u64) -> (fetched: (
        Result<Vec<u8>, WorkerError>,
        Vec<u64>,
    ))
        requires
            old(self)@.wf(),
        ensures
            final(self)@.wf(),
            download_result(old(self)@, final(self)@, transfer_id, now, fetched.0, fetched.1@),
    {
        let ghost before = self@;
        let ticket: DownloadTicket = match self.downloads.remove(&transfer_id) {
            Some(ticket) => ticket,
            None => {
                assert(self@ =~= before);
                return (Err(WorkerError::UnknownTransfer), Vec::new());
            },
        };
        if now > ticket.expires_at {
            return (Err(WorkerError::UnknownTransfer), Vec::new());
        }
        let bytes: Vec<u8> = match self.arena.read_ticket(ticket.read) {
            Ok(bytes) => bytes,
            Err(error) => return (Err(map_arena_error(error)), Vec::new()),
        };
        match validate_grpc_payload_bytes(bytes.len() as u64) {
            Ok(_) => {},
            Err(error) => return (Err(error), Vec::new()),
        }
        let waiters: Vec<u64> = self.advance_retirements();
        (Ok(bytes), waiters)
    }
}

/// What fetching a download does, and what comes of it.
pub open spec fn download_result(
    before: NodeView,
    after: NodeView,
    transfer_id: u64,
    now: u64,
    fetched: Result<Vec<u8>, WorkerError>,
    waiters: Seq<u64>,
) -> bool {
    let taken = NodeView { downloads: before.downloads.remove(transfer_id), ..before };
    if !before.downloads.contains_key(transfer_id) {
        after == before && waiters.len() == 0 && (fetched matches Err(error)
            && error is UnknownTransfer)
    } else {
        let ticket = before.downloads[transfer_id];
        match before.arena.ticket_bytes(ticket.read) {
            Ok(bytes) => if now > ticket.expires_at {
                after == taken && waiters.len() == 0 && (fetched matches Err(error)
                    && error is UnknownTransfer)
            } else if payload_fault(bytes.len() as u64) is Some {
                after == taken && waiters.len() == 0 && (fetched matches Err(error)
                    && payload_fault(bytes.len() as u64) == Some(error))
            } else {
                taken.advanced(after, waiters) && (fetched matches Ok(got) && got@ == bytes)
            },
            Err(fault) => after == taken && waiters.len() == 0 && (fetched matches Err(error) && if now
                > ticket.expires_at {
                error is UnknownTransfer
            } else {
                arena_error_means(fault, error)
            }),
        }
    }
}

/// A request that a client has declared finished gets no bytes any more, and changes nothing.
pub proof fn a_finished_request_gets_no_more_bytes(
    node: NodeView,
    session_id: u64,
    released: Option<u64>,
    finished: u64,
    read_scope_id: u64,
    read_request_id: u64,
    layout: LayoutView,
    sets: Seq<ReplicaSetView>,
    range: Option<(u64, u64)>,
    clamp: bool,
    max_inline_bytes: u64,
    now: u64,
)
    requires
        node.sessions.sessions.contains_key(session_id),
        0 < read_request_id <= finished,
    ensures
        ({
            let noted = node.noted(session_id, released, Some(finished));
            let (next, read) = noted.read_layout(
                session_id,
                read_scope_id,
                read_request_id,
                layout,
                sets,
                range,
                clamp,
                max_inline_bytes,
                now,
            );
            &&& read is Err
            &&& next == noted
            &&& forall|id: u64| #[trigger]
                noted.downloads.contains_key(id) ==> !(noted.downloads[id].session_id == session_id
                    && 0 < noted.downloads[id].read_request_id <= finished)
        }),
{
    let noted = node.noted(session_id, released, Some(finished));
    assert(noted.sessions.sessions[session_id].finished_read_request_through >= finished);
}

/// A download that is fetched in time gives exactly the bytes that its ticket is for. One that is not
/// there, whose time is over, whose memory is gone, or whose bytes do not fit into a message gives
/// none. No other download is touched.
pub proof fn a_download_gives_the_bytes_of_its_ticket(
    before: NodeView,
    after: NodeView,
    transfer_id: u64,
    now: u64,
    fetched: Result<Vec<u8>, WorkerError>,
    waiters: Seq<u64>,
    other: u64,
)
    requires
        before.arena.wf(),
        download_result(before, after, transfer_id, now, fetched, waiters),
    ensures
        ({
            let ticket = before.downloads[transfer_id];
            let memory = before.arena.contents[ticket.read.handle.allocation_id];
            &&& fetched is Ok <==> before.downloads.contains_key(transfer_id) && now
                <= ticket.expires_at && before.arena.contents.contains_key(
                ticket.read.handle.allocation_id,
            ) && ticket.read.offset + ticket.read.length <= memory.len() && ticket.read.length
                <= 8388608
            &&& fetched matches Ok(bytes) ==> bytes@ == memory.subrange(
                ticket.read.offset as int,
                ticket.read.offset + ticket.read.length,
            )
            &&& other != transfer_id ==> after.downloads.contains_key(other)
                == before.downloads.contains_key(other) && after.downloads[other]
                == before.downloads[other]
            &&& after.sessions == before.sessions
            &&& after.cache == before.cache
        }),
{
}

/// A read begins under a number that no read before it had, as long as there are numbers, and for a
/// session only while the session can be used. It is under way until it ends, and nothing else
/// changes by its beginning.
pub proof fn a_read_is_under_way_from_its_beginning_to_its_end(
    node: NodeView,
    session_id: u64,
    next: NodeView,
    waiters: Seq<u64>,
    other: u64,
)
    requires
        node.wf(),
        node.next_read_scope < u64::MAX,
    ensures
        ({
            let begun = node.scope_added();
            let scope = node.next_read_scope;
            &&& !node.scopes.contains(scope)
            &&& begun.scopes.contains(scope)
            &&& begun.next_read_scope == scope + 1
            &&& other != scope ==> begun.scopes.contains(other) == node.scopes.contains(other)
            &&& begun.sessions == node.sessions
            &&& begun.arena == node.arena
            &&& begun.retirements == node.retirements
        }),
        node.scope_fault(session_id) is None <==> node.sessions.sessions.contains_key(session_id)
            && !node.sessions.sessions[session_id].disconnected,
        node.own_scope_fault() is None,
        scope_or(node.own_scope_fault(), node.next_read_scope) == Ok::<u64, WorkerError>(
            node.next_read_scope,
        ),
        node.scope_ended(other, next, waiters) ==> !next.scopes.contains(other) && next.scopes
            == node.scopes.remove(other) && next.sessions == node.sessions && next.cache
            == node.cache,
{
}

/// A read's bytes are returned with the answer if and only if the client does not share memory with
/// the node, takes some with the answer, and they are no more than it takes and than an answer holds.
pub proof fn small_reads_are_answered_at_once(
    requested_length: u64,
    shared_memory: bool,
    max_inline_bytes: u64,
)
    ensures
        goes_inline(requested_length, shared_memory, max_inline_bytes) <==> !shared_memory
            && max_inline_bytes > 0 && requested_length <= max_inline_bytes && requested_length
            <= 65536,
{
}

/// A read fails for a session that cannot be used, for a request that has ended, for a layout that is
/// not valid and for a range that does not lie inside the value. Then, and whenever it fails, it
/// leaves the cache, the sessions and the memory as they were.
pub proof fn a_read_that_fails_leaves_the_sessions_alone(
    node: NodeView,
    session_id: u64,
    read_scope_id: u64,
    read_request_id: u64,
    layout: LayoutView,
    sets: Seq<ReplicaSetView>,
    range: Option<(u64, u64)>,
    clamp: bool,
    max_inline_bytes: u64,
    now: u64,
)
    ensures
        ({
            let (next, outcome) = node.read_layout(
                session_id,
                read_scope_id,
                read_request_id,
                layout,
                sets,
                range,
                clamp,
                max_inline_bytes,
                now,
            );
            let session = node.sessions.sessions[session_id];
            &&& !node.sessions.sessions.contains_key(session_id) || session.disconnected
                ==> outcome is Err && next == node
            &&& read_request_id != 0 && read_request_id <= session.finished_read_request_through
                ==> outcome is Err && next == node
            &&& !layout_valid(layout.logical_length, layout.extents) ==> outcome is Err && next
                == node
            &&& outcome is Err ==> next.sessions == node.sessions
            &&& outcome matches Ok(GetView::NeedsRemoteBlocks(specs)) ==> next == node
                && specs.len() > 0
            &&& next.arena == node.arena
            &&& next.cache == node.cache
            &&& next.scopes == node.scopes
            &&& next.imports == node.imports
            &&& next.retirements == node.retirements
        }),
{
}

/// A read that finds all that it needs here, for a session that can be used, in a request that has not
/// ended, of a valid layout and of a range that lies inside the value, succeeds with the answer if its
/// bytes go with it. A whole value that is all here is read as well.
pub proof fn a_read_of_what_is_here_succeeds(
    node: NodeView,
    session_id: u64,
    read_scope_id: u64,
    read_request_id: u64,
    resolved: ResolvedView,
    offset: u64,
    length: u64,
    clamp: bool,
    max_inline_bytes: u64,
    now: u64,
)
    requires
        node.sessions.sessions.contains_key(session_id),
        !node.sessions.sessions[session_id].disconnected,
        read_request_id == 0 || read_request_id
            > node.sessions.sessions[session_id].finished_read_request_through,
        resolved.layout is Some,
        layout_valid(resolved.layout->0.logical_length, resolved.layout->0.extents),
        offset + length <= resolved.layout->0.logical_length,
        forall|i: int|
            #![trigger resolved.layout->0.extents[i]]
            0 <= i < resolved.layout->0.extents.len() && is_read(
                resolved.layout->0.extents[i],
                offset as int,
                offset + length,
            ) ==> is_here(node, read_scope_id, resolved.layout->0.extents[i]),
    ensures
        !node.sessions.sessions[session_id].shared_memory && 0 < max_inline_bytes && length
            <= max_inline_bytes && length <= 65536 ==> (node.read_layout(
            session_id,
            read_scope_id,
            read_request_id,
            resolved.layout->0,
            resolved.block_replicas,
            Some((offset, length)),
            clamp,
            max_inline_bytes,
            now,
        ).1 matches Ok(GetView::Ready(ticket)) && ticket.inline_value is Some
            && ticket.segments.len() == 0),
        node.read_layout(
            session_id,
            read_scope_id,
            read_request_id,
            resolved.layout->0,
            resolved.block_replicas,
            Some((offset, length)),
            clamp,
            max_inline_bytes,
            now,
        ).1 matches Ok(GetView::Ready(ticket)) ==> (ticket.inline_value is Some
            <==> !node.sessions.sessions[session_id].shared_memory && 0 < max_inline_bytes
            && length <= max_inline_bytes && length <= 65536),
        offset == 0 && length == resolved.layout->0.logical_length && length <= usize::MAX
            ==> node.materialized(session_id, read_scope_id, resolved) matches Ok(
            MaterializeView::Ready { .. },
        ),
{
    crate::read_plan::a_read_of_what_is_here_lacks_nothing(
        node,
        read_scope_id,
        resolved.layout->0.extents,
        resolved.block_replicas,
        offset as int,
        offset + length,
    );
}

/// A read is refused for the first of these reasons that holds: its session cannot be used; its request has
/// ended; the layout is not valid; the range does not lie inside the value. A refused read leaves the
/// node as it was. A whole value that is not there is not found.
pub proof fn a_refused_read_is_told_why(
    node: NodeView,
    session_id: u64,
    read_scope_id: u64,
    read_request_id: u64,
    resolved: ResolvedView,
    offset: u64,
    length: u64,
    max_inline_bytes: u64,
    now: u64,
)
    ensures
        ({
            let layout = resolved.layout->0;
            let (next, outcome) = node.read_layout(
                session_id,
                read_scope_id,
                read_request_id,
                layout,
                resolved.block_replicas,
                Some((offset, length)),
                false,
                max_inline_bytes,
                now,
            );
            let whole = node.materialized(session_id, read_scope_id, resolved);
            let session = node.sessions.sessions[session_id];
            let usable = node.sessions.sessions.contains_key(session_id) && !session.disconnected;
            let ended = read_request_id != 0 && read_request_id
                <= session.finished_read_request_through;
            let valid = layout_valid(layout.logical_length, layout.extents);
            &&& !usable ==> next == node && outcome is Err && outcome->Err_0
                == WorkerError::UnknownSession
            &&& usable && ended ==> next == node && outcome is Err
                && outcome->Err_0 is InvalidArgument
            &&& usable && !ended && !valid ==> next == node && outcome is Err
            &&& usable && !ended && valid && offset + length > layout.logical_length ==> next
                == node && outcome is Err && outcome->Err_0 is InvalidArgument
            &&& !usable ==> whole is Err && whole->Err_0 == WorkerError::UnknownSession
            &&& usable && resolved.layout is None ==> whole is Err && whole->Err_0
                == WorkerError::NotFound
            &&& usable && resolved.layout is Some && !valid ==> whole is Err
        }),
{
}

/// Whether two segments of a ticket follow each other and the first begins at the start of the read.
pub open spec fn in_order(segments: Seq<ReadTicketSegment>, at: int) -> bool {
    segments[at].logical_offset == if at == 0 {
        0
    } else {
        segments[at - 1].logical_offset + segments[at - 1].payload_length
    }
}

/// The segments of a ticket follow each other from the start of the read. Each download that a read
/// begins is its session's, belongs to its request, and can be fetched for thirty seconds. Memory that
/// a client is let look at is held by a new view of its session, so that no block of it goes meanwhile.
pub proof fn a_ticket_is_for_its_reader(
    node: NodeView,
    session_id: u64,
    read_scope_id: u64,
    read_request_id: u64,
    layout: LayoutView,
    sets: Seq<ReplicaSetView>,
    range: Option<(u64, u64)>,
    clamp: bool,
    max_inline_bytes: u64,
    now: u64,
    at: int,
    download_id: u64,
)
    requires
        node.wf(),
        node.next_transfer + layout.extents.len() <= u64::MAX,
        now + 30_000_000_000 <= u64::MAX,
        node.read_layout(
            session_id,
            read_scope_id,
            read_request_id,
            layout,
            sets,
            range,
            clamp,
            max_inline_bytes,
            now,
        ).1 matches Ok(GetView::Ready(ticket)) && ticket.inline_value is None,
    ensures
        ({
            let (next, outcome) = node.read_layout(
                session_id,
                read_scope_id,
                read_request_id,
                layout,
                sets,
                range,
                clamp,
                max_inline_bytes,
                now,
            );
            let ticket = outcome->Ok_0->Ready_0;
            let epoch = node.sessions.sessions[session_id].next_view_epoch;
            &&& 0 <= at < ticket.segments.len() ==> in_order(ticket.segments, at)
            &&& node.downloads.contains_key(download_id) ==> next.downloads.contains_key(
                download_id,
            ) && next.downloads[download_id] == node.downloads[download_id]
            &&& next.downloads.contains_key(download_id) && !node.downloads.contains_key(
                download_id,
            ) ==> {
                &&& next.downloads[download_id].session_id == session_id
                &&& next.downloads[download_id].read_request_id == read_request_id
                &&& next.downloads[download_id].expires_at == now + 30_000_000_000
            }
            &&& 0 <= at < ticket.segments.len() ==> (
            ticket.segments[at].target matches ReadTarget::Grpc { transfer_id } ==> {
                &&& next.downloads.contains_key(transfer_id)
                &&& !node.downloads.contains_key(transfer_id)
            })
            &&& 0 <= at < ticket.segments.len() ==> (
            ticket.segments[at].target matches ReadTarget::Shm(descriptor) ==> {
                let session = next.sessions.sessions[session_id];
                &&& session.active_views.contains_key(epoch)
                &&& session.active_views[epoch].read_request_id == read_request_id
                &&& session.active_views[epoch].allocation_ids.contains(descriptor.allocation_id)
                &&& descriptor.view_epoch == Some(epoch)
            })
        }),
{
    let (start, length) = read_range(range, layout.logical_length, clamp)->Ok_0;
    let end = start + length;
    lemma_plan(node, read_scope_id, layout.extents, sets, start as int, end);
    lemma_plan_length(node, read_scope_id, layout.extents, sets, start as int, end);
    let (parts, missing) = node.planned(
        read_scope_id,
        layout.extents,
        sets,
        start as int,
        end,
    )->Ok_0;
    let session = node.sessions.sessions[session_id];
    let reader = Reader {
        session_id,
        read_request_id,
        shared_memory: session.shared_memory,
        view_epoch: session.next_view_epoch,
        now,
    };
    let run = reached(start as int, end, layout.logical_length as int);
    lemma_handout(node, reader, parts, run);
    let handout = node.handed_out(reader, parts);
    if 0 <= at < handout.segments.len() {
        assert(segment_is_due(node, reader, handout, parts, at));
    }
}

/// Whether a segment stands where its part stands, and what it names was handed out to its reader.
spec fn segment_is_due(
    node: NodeView,
    reader: Reader,
    handout: Handout,
    parts: Seq<PartView>,
    at: int,
) -> bool {
    let segment = handout.segments[at];
    &&& segment.logical_offset == parts[at].start()
    &&& segment.payload_length == parts[at].length()
    &&& in_order(handout.segments, at)
    &&& segment.target matches ReadTarget::Grpc { transfer_id } ==> handout.downloads.contains_key(
        transfer_id,
    ) && node.next_transfer <= transfer_id < handout.next_transfer
    &&& segment.target matches ReadTarget::Shm(descriptor) ==> handout.allocations.contains(
        descriptor.allocation_id,
    ) && descriptor.view_epoch == Some(reader.view_epoch)
}

proof fn lemma_handout(node: NodeView, reader: Reader, parts: Seq<PartView>, length: int)
    requires
        node.next_transfer + parts.len() <= u64::MAX,
        downloads_wf(node.downloads, node.next_transfer),
        node.handed_out(reader, parts).fault is None,
        reaches(parts, length),
        forall|i: int| #![trigger parts[i]] 0 <= i < parts.len() ==> is_local(parts[i]),
    ensures
        ({
            let handout = node.handed_out(reader, parts);
            &&& handout.segments.len() == parts.len()
            &&& node.next_transfer <= handout.next_transfer <= node.next_transfer + parts.len()
            &&& forall|at: int|
                0 <= at < parts.len() ==> #[trigger] segment_is_due(node, reader, handout, parts, at)
            &&& forall|id: u64| #[trigger]
                node.downloads.contains_key(id) ==> handout.downloads.contains_key(id)
                    && handout.downloads[id] == node.downloads[id]
            &&& forall|id: u64| #[trigger]
                handout.downloads.contains_key(id) && !node.downloads.contains_key(id) ==> id
                    < handout.next_transfer && handout.downloads[id].session_id
                    == reader.session_id && handout.downloads[id].read_request_id
                    == reader.read_request_id && handout.downloads[id].expires_at == later(
                    reader.now,
                    DOWNLOAD_TTL,
                )
        }),
    decreases parts.len(),
{
    if parts.len() > 0 {
        let rest = parts.drop_last();
        let part = parts.last();
        let handout = node.handed_out(reader, parts);
        let earlier = node.handed_out(reader, rest);
        assert forall|i: int| #![trigger rest[i]] 0 <= i < rest.len() implies is_local(rest[i]) by {
            assert(rest[i] == parts[i]);
        }
        lemma_handout(node, reader, rest, part.start());
        assert(is_local(parts[parts.len() - 1]));
        assert(handout == earlier.step(node.arena, reader, part));
        assert(handout.segments.drop_last() =~= earlier.segments);
        assert forall|at: int| 0 <= at < parts.len() implies #[trigger] segment_is_due(
            node,
            reader,
            handout,
            parts,
            at,
        ) by {
            if at < rest.len() {
                assert(segment_is_due(node, reader, earlier, rest, at));
                assert(rest[at] == parts[at]);
                assert(handout.segments[at] == earlier.segments[at]);
                if at > 0 {
                    assert(handout.segments[at - 1] == earlier.segments[at - 1]);
                }
                if let ReadTarget::Shm(descriptor) = handout.segments[at].target {
                    let j = choose|j: int|
                        0 <= j < earlier.allocations.len() && earlier.allocations[j]
                            == descriptor.allocation_id;
                    assert(handout.allocations[j] == descriptor.allocation_id);
                }
            } else {
                reveal_with_fuel(reaches, 3);
                if at > 0 {
                    assert(segment_is_due(node, reader, earlier, rest, at - 1));
                    assert(rest[at - 1] == rest.last());
                    assert(handout.segments[at - 1] == earlier.segments[at - 1]);
                }
                if let ReadTarget::Shm(descriptor) = handout.segments[at].target {
                    assert(handout.allocations[earlier.allocations.len() as int]
                        == descriptor.allocation_id);
                }
            }
        }
    }
}

/// A download can be fetched once: whatever came of the first fetch, the second finds nothing.
pub proof fn a_download_is_fetched_once(
    before: NodeView,
    after: NodeView,
    transfer_id: u64,
    now: u64,
    fetched: Result<Vec<u8>, WorkerError>,
    waiters: Seq<u64>,
)
    requires
        download_result(before, after, transfer_id, now, fetched, waiters),
    ensures
        !after.downloads.contains_key(transfer_id),
{
}

proof fn lemma_handout_stops(before: NodeView, reader: Reader, parts: Seq<PartView>, n: int)
    requires
        0 <= n <= parts.len(),
        before.handed_out(reader, parts.take(n)).fault is Some,
    ensures
        before.handed_out(reader, parts) == before.handed_out(reader, parts.take(n)),
    decreases parts.len() - n,
{
    if n < parts.len() {
        assert(parts.take(n + 1).drop_last() =~= parts.take(n));
        lemma_handout_stops(before, reader, parts, n + 1);
    } else {
        assert(parts.take(n) =~= parts);
    }
}

proof fn lemma_plan_length(
    node: NodeView,
    read_scope_id: u64,
    extents: Seq<ExtentView>,
    sets: Seq<ReplicaSetView>,
    start: int,
    end: int,
)
    requires
        node.planned(read_scope_id, extents, sets, start, end) is Ok,
    ensures
        ({
            let (parts, missing) = node.planned(read_scope_id, extents, sets, start, end)->Ok_0;
            parts.len() <= extents.len() && missing.len() <= parts.len()
        }),
    decreases extents.len(),
{
    if extents.len() > 0 {
        lemma_plan_length(node, read_scope_id, extents.drop_last(), sets, start, end);
    }
}

} // verus!
