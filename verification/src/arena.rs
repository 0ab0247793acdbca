//! The memory of the node: immutable blocks, staged payloads that may become blocks, and space
//! set aside for files. A block's bytes never change between the moment it is stored and the
//! moment it is retired, and its digest is the digest of those bytes.
use crate::bytes::{copy_bytes, same_bytes};
use crate::digest::digest;
#[allow(unused_imports)]
use crate::digest::sha256_of;
use crate::error::ArenaError;
#[allow(unused_imports)]
use crate::table::{lemma_total_empty, lemma_total_insert, lemma_total_remove, total};
use crate::table::{KeySet, Table};
use vstd::prelude::*;

verus! {

/// The name of a piece of memory.
#[derive(Clone, Copy, Debug, PartialEq, Eq, Structural)]
pub struct AllocationHandle {
    pub allocation_id: u64,
}

/// The right to read a slice of a block.
#[derive(Clone, Copy, Debug, PartialEq, Eq, Structural)]
pub struct ArenaReadTicket {
    pub handle: AllocationHandle,
    pub offset: u64,
    pub length: u64,
}

/// What a client has to show for a payload that it staged.
#[derive(Debug, PartialEq, Eq)]
pub struct HostReceipt {
    pub length: u64,
    pub digest: Vec<u8>,
    pub release_token: Vec<u8>,
}

/// What a client has to show for a payload that it staged, as a value.
#[verifier::ext_equal]
pub struct ReceiptView {
    pub length: u64,
    pub digest: Seq<u8>,
    pub release_token: Seq<u8>,
}

impl View for HostReceipt {
    type V = ReceiptView;

    open spec fn view(&self) -> ReceiptView {
        ReceiptView {
            length: self.length,
            digest: self.digest@,
            release_token: self.release_token@,
        }
    }
}

/// A writable mapping that a client gives back.
#[derive(Debug, PartialEq, Eq)]
pub struct ReleasedWriteAllocation {
    pub allocation_id: u64,
    pub release_token: Vec<u8>,
}

/// A slice of shared memory that a client may read.
#[derive(Clone, Copy, Debug, PartialEq, Eq, Structural)]
pub struct HostShmDescriptor {
    pub allocation_id: u64,
    pub transfer_id: u64,
    pub offset: u64,
    pub length: u64,
    pub view_epoch: Option<u64>,
}

/// The right to map a region of shared memory: the memory of a block or of a staged payload, under
/// its number.
#[derive(Clone, Copy, Debug, PartialEq, Eq, Structural)]
pub struct HostRegionGrant {
    pub region_id: u64,
    pub length: u64,
    /// Whether the session may write to the region.
    pub writable: bool,
}

/// Space that was taken out of a reservation.
#[derive(Debug, PartialEq, Eq)]
pub struct FileSpaceConsumption {
    pub reservation_id: Vec<u8>,
    pub length: u64,
}

impl View for FileSpaceConsumption {
    type V = (Seq<u8>, u64);

    open spec fn view(&self) -> (Seq<u8>, u64) {
        (self.reservation_id@, self.length)
    }
}

/// What the arena knows of a block.
#[derive(Debug, PartialEq, Eq)]
pub struct BlockEntry {
    pub allocation_id: u64,
    pub length: u64,
    pub digest: Vec<u8>,
    /// The version under which the block was published.
    pub version: Option<u64>,
    /// The session that can still write to the memory through a mapping.
    pub writer: Option<u64>,
    /// What the writer shows when it gives the mapping back.
    pub release_token: Vec<u8>,
}

/// What the arena knows of a block, as a value.
#[verifier::ext_equal]
pub struct BlockView {
    pub allocation_id: u64,
    pub length: u64,
    pub digest: Seq<u8>,
    pub version: Option<u64>,
    pub writer: Option<u64>,
    pub release_token: Seq<u8>,
}

impl View for BlockEntry {
    type V = BlockView;

    open spec fn view(&self) -> BlockView {
        BlockView {
            allocation_id: self.allocation_id,
            length: self.length,
            digest: self.digest@,
            version: self.version,
            writer: self.writer,
            release_token: self.release_token@,
        }
    }
}

/// A payload on its way to becoming a block.
#[derive(Debug, PartialEq, Eq)]
pub struct StagingEntry {
    pub session_id: u64,
    pub length: u64,
    pub payload: Option<Vec<u8>>,
    pub digest: Vec<u8>,
    /// Whether the client writes the payload through a mapping.
    pub shared: bool,
    /// What the client shows when it gives the mapping back.
    pub release_token: Vec<u8>,
    pub expires_at: u64,
}

/// A payload on its way to becoming a block, as a value.
#[verifier::ext_equal]
pub struct StagingView {
    pub session_id: u64,
    pub length: u64,
    pub payload: Option<Seq<u8>>,
    pub digest: Seq<u8>,
    pub shared: bool,
    pub release_token: Seq<u8>,
    pub expires_at: u64,
}

impl View for StagingEntry {
    type V = StagingView;

    open spec fn view(&self) -> StagingView {
        StagingView {
            session_id: self.session_id,
            length: self.length,
            payload: match self.payload {
                Some(bytes) => Some(bytes@),
                None => None,
            },
            digest: self.digest@,
            shared: self.shared,
            release_token: self.release_token@,
            expires_at: self.expires_at,
        }
    }
}

/// The memory of the node.
pub struct Arena {
    pub capacity: u64,
    pub used: u64,
    pub staging_ttl: u64,
    pub shared: bool,
    pub next_allocation: u64,
    pub sessions: KeySet<u64>,
    pub blocks: Table<Vec<u8>, BlockEntry>,
    pub contents: Table<u64, Vec<u8>>,
    pub stagings: Table<u64, StagingEntry>,
    pub reservations: Table<Vec<u8>, u64>,
}

/// The memory of the node, as a value.
#[verifier::ext_equal]
pub struct ArenaView {
    pub capacity: u64,
    pub used: u64,
    pub staging_ttl: u64,
    pub shared: bool,
    pub next_allocation: u64,
    pub sessions: Set<u64>,
    pub blocks: Map<Seq<u8>, BlockView>,
    pub contents: Map<u64, Seq<u8>>,
    pub stagings: Map<u64, StagingView>,
    pub reservations: Map<Seq<u8>, u64>,
}

impl View for Arena {
    type V = ArenaView;

    open spec fn view(&self) -> ArenaView {
        ArenaView {
            capacity: self.capacity,
            used: self.used,
            staging_ttl: self.staging_ttl,
            shared: self.shared,
            next_allocation: self.next_allocation,
            sessions: self.sessions@,
            blocks: self.blocks@,
            contents: self.contents@,
            stagings: self.stagings@,
            reservations: self.reservations@,
        }
    }
}

/// The bytes of a piece of memory, counted.
pub open spec fn content_weight() -> spec_fn(Seq<u8>) -> nat {
    |bytes: Seq<u8>| bytes.len()
}

/// The bytes that a staged payload holds, counted.
pub open spec fn staging_weight() -> spec_fn(StagingView) -> nat {
    |staging: StagingView| staging.length as nat
}

/// The bytes that a reservation holds, counted.
pub open spec fn reservation_weight() -> spec_fn(u64) -> nat {
    |length: u64| length as nat
}

impl ArenaView {
    /// The bytes of a block.
    pub open spec fn block_bytes(self, block_id: Seq<u8>) -> Seq<u8> {
        self.contents[self.blocks[block_id].allocation_id]
    }

    /// Whether a block's record agrees with the memory that it names.
    pub open spec fn block_wf(self, block_id: Seq<u8>) -> bool {
        let block = self.blocks[block_id];
        &&& block.allocation_id < self.next_allocation
        &&& self.contents.contains_key(block.allocation_id)
        &&& self.contents[block.allocation_id].len() == block.length
        &&& block.length > 0
        &&& block.digest == sha256_of(self.contents[block.allocation_id])
    }

    /// Whether a staged payload has memory of its own, and the length and the digest that its
    /// record says.
    pub open spec fn staging_wf(self, staging_id: u64) -> bool {
        let staging = self.stagings[staging_id];
        &&& staging_id < self.next_allocation
        &&& !self.contents.contains_key(staging_id)
        &&& staging.length > 0
        &&& staging.payload matches Some(bytes) ==> bytes.len() == staging.length && staging.digest
            == sha256_of(bytes)
    }

    /// The bytes that everything in the arena holds.
    pub open spec fn held(self) -> nat {
        total(self.contents, content_weight()) + total(self.stagings, staging_weight()) + total(
            self.reservations,
            reservation_weight(),
        )
    }

    /// What is true of the arena at any time.
    pub open spec fn wf(self) -> bool {
        &&& self.contents.dom().finite()
        &&& self.stagings.dom().finite()
        &&& self.reservations.dom().finite()
        &&& self.used == self.held()
        &&& self.used <= self.capacity
        &&& forall|id: Seq<u8>| #[trigger] self.blocks.contains_key(id) ==> self.block_wf(id)
        &&& forall|left: Seq<u8>, right: Seq<u8>|
            #![trigger self.blocks[left], self.blocks[right]]
            self.blocks.contains_key(left) && self.blocks.contains_key(right) && left != right
                ==> self.blocks[left].allocation_id != self.blocks[right].allocation_id
        &&& forall|id: u64| #[trigger]
            self.contents.contains_key(id) ==> id < self.next_allocation
        &&& forall|id: u64| #[trigger] self.stagings.contains_key(id) ==> self.staging_wf(id)
    }

    /// The right to read a range of a block, with the block's length.
    pub open spec fn opened(self, block_id: Seq<u8>, range: Option<(u64, u64)>) -> Result<
        (ArenaReadTicket, u64),
        ArenaError,
    > {
        if !self.blocks.contains_key(block_id) {
            Err(ArenaError::UnknownBlock)
        } else {
            let block = self.blocks[block_id];
            let handle = AllocationHandle { allocation_id: block.allocation_id };
            match range {
                None => Ok(
                    (ArenaReadTicket { handle, offset: 0, length: block.length }, block.length),
                ),
                Some((offset, length)) => if offset + length > block.length {
                    Err(ArenaError::RangeOutOfBounds)
                } else {
                    Ok((ArenaReadTicket { handle, offset, length }, block.length))
                },
            }
        }
    }

    /// The bytes that a ticket gives.
    pub open spec fn ticket_bytes(self, ticket: ArenaReadTicket) -> Result<Seq<u8>, ArenaError> {
        if !self.contents.contains_key(ticket.handle.allocation_id) {
            Err(ArenaError::StaleHandle)
        } else {
            let bytes = self.contents[ticket.handle.allocation_id];
            if ticket.offset + ticket.length > bytes.len() {
                Err(ArenaError::RangeOutOfBounds)
            } else {
                Ok(bytes.subrange(ticket.offset as int, ticket.offset + ticket.length))
            }
        }
    }

    /// What storing a block does.
    pub open spec fn stored(
        self,
        block_id: Seq<u8>,
        bytes: Seq<u8>,
        digest: Seq<u8>,
    ) -> Result<ArenaView, ArenaError> {
        if bytes.len() == 0 {
            Err(ArenaError::EmptyPayload)
        } else if self.blocks.contains_key(block_id) {
            if self.blocks[block_id].length == bytes.len() && self.blocks[block_id].digest
                == digest {
                Ok(self)
            } else {
                Err(ArenaError::ReceiptConflict)
            }
        } else if self.used + bytes.len() > self.capacity {
            Err(ArenaError::CapacityExhausted)
        } else if self.next_allocation == u64::MAX {
            Err(ArenaError::RegionOverflow)
        } else {
            Ok(
                ArenaView {
                    used: (self.used + bytes.len()) as u64,
                    next_allocation: (self.next_allocation + 1) as u64,
                    blocks: self.blocks.insert(
                        block_id,
                        BlockView {
                            allocation_id: self.next_allocation,
                            length: bytes.len() as u64,
                            digest,
                            version: None,
                            writer: None,
                            release_token: Seq::empty(),
                        },
                    ),
                    contents: self.contents.insert(self.next_allocation, bytes),
                    ..self
                },
            )
        }
    }

    /// What retiring a block leaves.
    pub open spec fn retired(self, block_id: Seq<u8>) -> ArenaView {
        if !self.blocks.contains_key(block_id) {
            self
        } else {
            ArenaView {
                used: (self.used - self.blocks[block_id].length) as u64,
                blocks: self.blocks.remove(block_id),
                contents: self.contents.remove(self.blocks[block_id].allocation_id),
                ..self
            }
        }
    }

    /// The arena after blocks were retired one after the other.
    pub open spec fn retired_all(self, block_ids: Seq<Seq<u8>>) -> ArenaView
        decreases block_ids.len(),
    {
        if block_ids.len() == 0 {
            self
        } else {
            self.retired_all(block_ids.drop_last()).retired(block_ids.last())
        }
    }

    /// The arena after a block was published.
    pub open spec fn committed(self, block_id: Seq<u8>, version: u64) -> ArenaView {
        if !self.blocks.contains_key(block_id) {
            self
        } else {
            ArenaView {
                blocks: self.blocks.insert(
                    block_id,
                    BlockView { version: Some(version), ..self.blocks[block_id] },
                ),
                ..self
            }
        }
    }

    /// Whether a session can still write to a block through a mapping.
    pub open spec fn written_by(self, session_id: u64) -> bool {
        exists|id: Seq<u8>|
            #![trigger self.blocks.contains_key(id)]
            self.blocks.contains_key(id) && self.blocks[id].writer == Some(session_id)
    }

    /// Whether a block may still be written through a mapping.
    pub open spec fn has_writer(self, block_id: Seq<u8>) -> bool {
        self.blocks.contains_key(block_id) && self.blocks[block_id].writer is Some
    }

    /// The memory of a block, if there is one.
    pub open spec fn allocation_of(self, block_id: Seq<u8>) -> Option<u64> {
        if self.blocks.contains_key(block_id) {
            Some(self.blocks[block_id].allocation_id)
        } else {
            None
        }
    }

    /// Why a staged payload cannot be taken.
    pub open spec fn staging_fault(
        self,
        session_id: u64,
        staging_id: u64,
        receipt: ReceiptView,
    ) -> Option<ArenaError> {
        if !self.stagings.contains_key(staging_id) || self.stagings[staging_id].session_id
            != session_id {
            Some(ArenaError::UnknownStaging)
        } else if self.stagings[staging_id].payload is None {
            Some(ArenaError::StagingNotWritable)
        } else if receipt.length != self.stagings[staging_id].length || receipt.digest
            != self.stagings[staging_id].digest {
            Some(ArenaError::ReceiptConflict)
        } else {
            None
        }
    }

    /// The arena without a staged payload.
    pub open spec fn unstaged(self, staging_id: u64) -> ArenaView {
        if !self.stagings.contains_key(staging_id) {
            self
        } else {
            ArenaView {
                used: (self.used - self.stagings[staging_id].length) as u64,
                stagings: self.stagings.remove(staging_id),
                ..self
            }
        }
    }

    /// What turning a staged payload into a block does. The block keeps the memory that was set
    /// aside for the payload.
    pub open spec fn sealed(
        self,
        session_id: u64,
        staging_id: u64,
        receipt: ReceiptView,
        block_id: Seq<u8>,
    ) -> Result<ArenaView, ArenaError> {
        if self.staging_fault(session_id, staging_id, receipt) is Some {
            Err(self.staging_fault(session_id, staging_id, receipt)->0)
        } else {
            let staging = self.stagings[staging_id];
            if self.blocks.contains_key(block_id) {
                if self.blocks[block_id].length == staging.length && self.blocks[block_id].digest
                    == staging.digest {
                    Ok(self.unstaged(staging_id))
                } else {
                    Err(ArenaError::ReceiptConflict)
                }
            } else {
                Ok(
                    ArenaView {
                        blocks: self.blocks.insert(
                            block_id,
                            BlockView {
                                allocation_id: staging_id,
                                length: staging.length,
                                digest: staging.digest,
                                version: None,
                                writer: if staging.shared {
                                    Some(session_id)
                                } else {
                                    None
                                },
                                release_token: if staging.shared {
                                    receipt.release_token
                                } else {
                                    Seq::empty()
                                },
                            },
                        ),
                        contents: self.contents.insert(staging_id, staging.payload->0),
                        stagings: self.stagings.remove(staging_id),
                        ..self
                    },
                )
            }
        }
    }

    /// Whether a staged payload belongs to a session.
    pub open spec fn staged_by(self, staging_id: u64, session_id: u64) -> bool {
        self.stagings.contains_key(staging_id) && self.stagings[staging_id].session_id == session_id
    }
}

/// A stored block reads back as the bytes that were stored, and every other block reads as
/// before.
pub proof fn a_stored_block_reads_back(
    before: ArenaView,
    block_id: Seq<u8>,
    bytes: Seq<u8>,
    other: Seq<u8>,
)
    requires
        before.wf(),
        before.stored(block_id, bytes, sha256_of(bytes)) is Ok,
        !before.blocks.contains_key(block_id),
        before.blocks.contains_key(other),
    ensures
        ({
            let next = before.stored(block_id, bytes, sha256_of(bytes))->Ok_0;
            &&& next.opened(block_id, None) is Ok
            &&& next.ticket_bytes(next.opened(block_id, None)->Ok_0.0) == Ok::<
                Seq<u8>,
                ArenaError,
            >(bytes)
            &&& next.blocks.contains_key(other)
            &&& next.block_bytes(other) == before.block_bytes(other)
        }),
{
    let next = before.stored(block_id, bytes, sha256_of(bytes))->Ok_0;
    assert(bytes.subrange(0, bytes.len() as int) =~= bytes);
    assert(before.block_wf(other));
}

/// A block is opened as a whole or in the range that was asked for. That succeeds if and only if the
/// block is there and reaches to the range's end; then the ticket gives exactly these bytes, and the
/// whole block's length is told.
pub proof fn a_block_is_opened_where_it_was_asked_for(
    arena: ArenaView,
    block_id: Seq<u8>,
    offset: u64,
    length: u64,
)
    requires
        arena.wf(),
    ensures
        !arena.blocks.contains_key(block_id) ==> arena.opened(block_id, None) is Err
            && arena.opened(block_id, Some((offset, length))) is Err,
        arena.blocks.contains_key(block_id) ==> {
            let bytes = arena.block_bytes(block_id);
            &&& bytes.len() == arena.blocks[block_id].length
            &&& arena.opened(block_id, None) matches Ok((ticket, whole)) && whole == bytes.len()
                && arena.ticket_bytes(ticket) == Ok::<Seq<u8>, ArenaError>(bytes)
        },
        arena.blocks.contains_key(block_id) ==> {
            let bytes = arena.block_bytes(block_id);
            &&& arena.opened(block_id, Some((offset, length))) is Ok <==> offset + length
                <= bytes.len()
            &&& arena.opened(block_id, Some((offset, length))) matches Ok((ticket, whole))
                ==> whole == bytes.len() && ticket.length == length && arena.ticket_bytes(ticket)
                == Ok::<Seq<u8>, ArenaError>(bytes.subrange(offset as int, offset + length))
        },
{
    if arena.blocks.contains_key(block_id) {
        let bytes = arena.block_bytes(block_id);
        assert(arena.block_wf(block_id));
        assert(bytes.subrange(0, bytes.len() as int) =~= bytes);
    }
}

/// Bytes become a block of their own if there are any and there is room for them, and take up as much
/// room as they are long. A block that is there under that name with the same length and digest
/// stays as it is; one with another is in the way. Nothing else changes.
pub proof fn a_block_is_stored_where_there_is_room(
    arena: ArenaView,
    block_id: Seq<u8>,
    bytes: Seq<u8>,
    digest: Seq<u8>,
    other: Seq<u8>,
)
    requires
        arena.wf(),
    ensures
        ({
            let there = arena.blocks.contains_key(block_id);
            let result = arena.stored(block_id, bytes, digest);
            &&& result is Ok <==> bytes.len() > 0 && (if there {
                arena.blocks[block_id].length == bytes.len() && arena.blocks[block_id].digest
                    == digest
            } else {
                arena.used + bytes.len() <= arena.capacity && arena.next_allocation < u64::MAX
            })
            &&& there && result is Ok ==> result->Ok_0 == arena
            &&& !there && result is Ok ==> {
                let next = result->Ok_0;
                &&& next.blocks.contains_key(block_id)
                &&& next.block_bytes(block_id) == bytes
                &&& next.blocks[block_id].length == bytes.len()
                &&& next.blocks[block_id].digest == digest
                &&& next.blocks[block_id].version is None
                &&& next.blocks[block_id].writer is None
                &&& next.used == arena.used + bytes.len()
                &&& other != block_id ==> next.blocks.contains_key(other)
                    == arena.blocks.contains_key(other)
                &&& other != block_id && arena.blocks.contains_key(other) ==> next.blocks[other]
                    == arena.blocks[other] && next.block_bytes(other) == arena.block_bytes(other)
                &&& next.stagings == arena.stagings
                &&& next.capacity == arena.capacity
            }
        }),
{
    if arena.blocks.contains_key(other) {
        assert(arena.block_wf(other));
    }
}

/// A staged payload becomes a block if and only if it is the session's own, its bytes have come, and
/// the receipt names their length and digest; a block that is in the way must have the same. The new
/// block holds these bytes in the memory that was set aside for them, and its session may still write
/// to it if and only if that memory is shared. Nothing else changes.
pub proof fn a_staged_payload_becomes_a_block(
    arena: ArenaView,
    session_id: u64,
    staging_id: u64,
    receipt: ReceiptView,
    block_id: Seq<u8>,
    other: Seq<u8>,
)
    requires
        arena.wf(),
    ensures
        ({
            let staging = arena.stagings[staging_id];
            let there = arena.blocks.contains_key(block_id);
            let result = arena.sealed(session_id, staging_id, receipt, block_id);
            &&& result is Ok <==> arena.stagings.contains_key(staging_id) && staging.session_id
                == session_id && staging.payload is Some && receipt.length == staging.length
                && receipt.digest == staging.digest && (there ==> arena.blocks[block_id].length
                == staging.length && arena.blocks[block_id].digest == staging.digest)
            &&& result is Ok ==> {
                let next = result->Ok_0;
                &&& !next.stagings.contains_key(staging_id)
                &&& next.stagings == arena.stagings.remove(staging_id)
                &&& next.blocks.contains_key(block_id)
                &&& there ==> next.blocks[block_id] == arena.blocks[block_id]
                    && next.block_bytes(block_id) == arena.block_bytes(block_id) && next.used
                    == arena.used - staging.length
                &&& !there ==> {
                    &&& Some(next.block_bytes(block_id)) == staging.payload
                    &&& next.blocks[block_id].allocation_id == staging_id
                    &&& next.blocks[block_id].length == receipt.length
                    &&& next.blocks[block_id].digest == receipt.digest
                    &&& next.blocks[block_id].version is None
                    &&& next.blocks[block_id].writer == if staging.shared {
                        Some(session_id)
                    } else {
                        None
                    }
                    &&& staging.shared ==> next.blocks[block_id].release_token
                        == receipt.release_token
                    &&& next.used == arena.used
                }
                &&& other != block_id ==> next.blocks.contains_key(other)
                    == arena.blocks.contains_key(other)
                &&& other != block_id && arena.blocks.contains_key(other) ==> next.blocks[other]
                    == arena.blocks[other] && next.block_bytes(other) == arena.block_bytes(other)
            }
        }),
{
    if arena.stagings.contains_key(staging_id) {
        assert(arena.staging_wf(staging_id));
        crate::table::lemma_total_remove(arena.stagings, staging_weight(), staging_id);
    }
    if arena.blocks.contains_key(other) {
        assert(arena.block_wf(other));
    }
    if arena.blocks.contains_key(block_id) {
        assert(arena.block_wf(block_id));
    }
}

/// A block that is retired is gone and gives its room back. A block that is published is told its
/// version and otherwise stays as it is. Neither does anything to another block.
pub proof fn retiring_and_publishing_touch_one_block(
    arena: ArenaView,
    block_id: Seq<u8>,
    version: u64,
    other: Seq<u8>,
)
    requires
        arena.wf(),
    ensures
        ({
            let next = arena.retired(block_id);
            &&& !next.blocks.contains_key(block_id)
            &&& !arena.blocks.contains_key(block_id) ==> next == arena
            &&& arena.blocks.contains_key(block_id) ==> next.used == arena.used
                - arena.blocks[block_id].length
            &&& other != block_id ==> next.blocks.contains_key(other)
                == arena.blocks.contains_key(other)
            &&& other != block_id && arena.blocks.contains_key(other) ==> next.blocks[other]
                == arena.blocks[other] && next.block_bytes(other) == arena.block_bytes(other)
            &&& next.stagings == arena.stagings
        }),
        ({
            let next = arena.committed(block_id, version);
            &&& next.blocks.contains_key(other) == arena.blocks.contains_key(other)
            &&& arena.blocks.contains_key(block_id) ==> next.blocks[block_id] == (BlockView {
                version: Some(version),
                ..arena.blocks[block_id]
            })
            &&& other != block_id ==> next.blocks[other] == arena.blocks[other]
            &&& next.contents == arena.contents
            &&& next.used == arena.used
            &&& next.stagings == arena.stagings
        }),
{
    lemma_retired(arena, block_id);
    if arena.blocks.contains_key(block_id) {
        assert(arena.block_wf(block_id));
        let gone = arena.blocks[block_id].allocation_id;
        lemma_total_remove(arena.contents, content_weight(), gone);
    }
}

/// What was staged is used once: after it became a block or was taken out, no receipt opens it again.
pub proof fn what_was_staged_is_used_once(
    before: ArenaView,
    session_id: u64,
    staging_id: u64,
    receipt: ReceiptView,
    block_id: Seq<u8>,
    later_session_id: u64,
    later_receipt: ReceiptView,
)
    requires
        before.staging_fault(session_id, staging_id, receipt) is None,
    ensures
        before.unstaged(staging_id).staging_fault(later_session_id, staging_id, later_receipt)
            == Some(ArenaError::UnknownStaging),
        before.sealed(session_id, staging_id, receipt, block_id) matches Ok(next)
            ==> next.staging_fault(later_session_id, staging_id, later_receipt) == Some(
            ArenaError::UnknownStaging,
        ),
{
}

/// An arena without a block is sound, and the other blocks hold what they held.
pub proof fn lemma_retired(before: ArenaView, block_id: Seq<u8>)
    requires
        before.wf(),
    ensures
        before.retired(block_id).wf(),
        forall|id: Seq<u8>| #[trigger]
            before.blocks.contains_key(id) && id != block_id ==> before.retired(
                block_id,
            ).blocks.contains_key(id) && before.retired(block_id).block_bytes(id)
                == before.block_bytes(id),
{
    if before.blocks.contains_key(block_id) {
        let next = before.retired(block_id);
        let gone = before.blocks[block_id].allocation_id;
        assert(before.block_wf(block_id));
        lemma_total_remove(before.contents, content_weight(), gone);
        assert(next.contents.dom() =~= before.contents.dom().remove(gone));
        assert forall|id: Seq<u8>| #[trigger]
            before.blocks.contains_key(id) && id != block_id implies next.blocks.contains_key(id)
            && next.block_bytes(id) == before.block_bytes(id) by {
            assert(before.blocks[id].allocation_id != before.blocks[block_id].allocation_id);
        }
        assert forall|id: Seq<u8>| #[trigger] next.blocks.contains_key(id) implies next.block_wf(
            id,
        ) by {
            assert(before.block_wf(id));
            assert(before.blocks[id].allocation_id != before.blocks[block_id].allocation_id);
        }
        assert forall|left: Seq<u8>, right: Seq<u8>|
            #![trigger next.blocks[left], next.blocks[right]]
            next.blocks.contains_key(left) && next.blocks.contains_key(right) && left
                != right implies next.blocks[left].allocation_id
            != next.blocks[right].allocation_id by {
            assert(before.blocks[left].allocation_id != before.blocks[right].allocation_id);
        }
        assert forall|id: u64| #[trigger] next.stagings.contains_key(id) implies next.staging_wf(
            id,
        ) by {
            assert(before.staging_wf(id));
        }
    }
}

impl HostReceipt {
    /// An equal receipt.
    pub fn duplicate(&self) -> (copy: Self)
        ensures
            copy@ == self@,
    {
        HostReceipt {
            length: self.length,
            digest: copy_bytes(&self.digest),
            release_token: copy_bytes(&self.release_token),
        }
    }
}

impl Arena {
    /// An empty arena.
    pub fn new(capacity: u64, staging_ttl: u64, shared: bool) -> (arena: Self)
        ensures
            arena@.wf(),
            arena@ == (ArenaView {
                capacity,
                used: 0,
                staging_ttl,
                shared,
                next_allocation: 1,
                sessions: Set::empty(),
                blocks: Map::empty(),
                contents: Map::empty(),
                stagings: Map::empty(),
                reservations: Map::empty(),
            }),
    {
        proof {
            lemma_total_empty::<u64, Seq<u8>>(content_weight());
            lemma_total_empty::<u64, StagingView>(staging_weight());
            lemma_total_empty::<Seq<u8>, u64>(reservation_weight());
        }
        Arena {
            capacity,
            used: 0,
            staging_ttl,
            shared,
            next_allocation: 1,
            sessions: KeySet::new(),
            blocks: Table::new(),
            contents: Table::new(),
            stagings: Table::new(),
            reservations: Table::new(),
        }
    }

    /// The right to read a range of a block, or all of it, with the block's length.
    pub fn open_read(&self, block_id: &Vec<u8>, range: Option<(u64, u64)>) -> (opened: Result<
        (ArenaReadTicket, u64),
        ArenaError,
    >)
        ensures
            opened == self@.opened(block_id@, range),
    {
        match self.blocks.get(block_id) {
            None => Err(ArenaError::UnknownBlock),
            Some(block) => {
                let handle = AllocationHandle { allocation_id: block.allocation_id };
                match range {
                    None => Ok(
                        (ArenaReadTicket { handle, offset: 0, length: block.length }, block.length),
                    ),
                    Some((offset, length)) => match offset.checked_add(length) {
                        Some(end) => if end > block.length {
                            Err(ArenaError::RangeOutOfBounds)
                        } else {
                            Ok((ArenaReadTicket { handle, offset, length }, block.length))
                        },
                        None => Err(ArenaError::RangeOutOfBounds),
                    },
                }
            },
        }
    }

    /// The bytes that a ticket gives.
    pub fn read_ticket(&self, ticket: ArenaReadTicket) -> (read: Result<Vec<u8>, ArenaError>)
        ensures
            match read {
                Ok(bytes) => self@.ticket_bytes(ticket) == Ok::<Seq<u8>, ArenaError>(bytes@),
                Err(error) => self@.ticket_bytes(ticket) == Err::<Seq<u8>, ArenaError>(error),
            },
    {
        match self.contents.get(&ticket.handle.allocation_id) {
            None => Err(ArenaError::StaleHandle),
            Some(bytes) => {
                let available: u64 = bytes.len() as u64;
                let end: u64 = match ticket.offset.checked_add(ticket.length) {
                    Some(end) => end,
                    None => return Err(ArenaError::RangeOutOfBounds),
                };
                if end > available {
                    return Err(ArenaError::RangeOutOfBounds);
                }
                Ok(
                    copy_bytes(
                        vstd::slice::slice_subrange(
                            bytes.as_slice(),
                            ticket.offset as usize,
                            end as usize,
                        ),
                    ),
                )
            },
        }
    }

    /// Writes the bytes that a ticket gives into a buffer and returns how many they are.
    pub fn read_ticket_into(
        &self,
        ticket: ArenaReadTicket,
        output: &mut Vec<u8>,
        start: usize,
    ) -> (written: Result<usize, ArenaError>)
        requires
            start <= old(output)@.len(),
        ensures
            match (written, self@.ticket_bytes(ticket)) {
                (Ok(count), Ok(bytes)) => {
                    &&& count == bytes.len()
                    &&& start + count <= old(output)@.len()
                    &&& final(output)@ == old(output)@.subrange(0, start as int) + bytes + old(
                        output,
                    )@.subrange(start + count, old(output)@.len() as int)
                },
                (Err(error), Ok(bytes)) => {
                    &&& error == ArenaError::RangeOutOfBounds
                    &&& start + bytes.len() > old(output)@.len()
                    &&& final(output)@ == old(output)@
                },
                (Err(error), Err(fault)) => error == fault && final(output)@ == old(output)@,
                (Ok(_), Err(_)) => false,
            },
    {
        let ghost before = output@;
        let bytes: Vec<u8> = match self.read_ticket(ticket) {
            Ok(bytes) => bytes,
            Err(error) => return Err(error),
        };
        let room: usize = output.len() - start;
        if bytes.len() > room {
            return Err(ArenaError::RangeOutOfBounds);
        }
        let mut i: usize = 0;
        while i < bytes.len()
            invariant
                i <= bytes@.len(),
                start + bytes@.len() <= before.len(),
                before.len() <= usize::MAX,
                output@ =~= before.subrange(0, start as int) + bytes@.subrange(0, i as int)
                    + before.subrange(start + i, before.len() as int),
            decreases bytes.len() - i,
        {
            output.set(start + i, bytes[i]);
            i = i + 1;
        }
        assert(bytes@.subrange(0, i as int) =~= bytes@);
        Ok(bytes.len())
    }

    /// The length and the digest of a block.
    pub fn block_length_and_digest(&self, block_id: &Vec<u8>) -> (found: Option<(u64, &Vec<u8>)>)
        ensures
            match found {
                Some((length, digest)) => self@.blocks.contains_key(block_id@) && length
                    == self@.blocks[block_id@].length && digest@ == self@.blocks[block_id@].digest,
                None => !self@.blocks.contains_key(block_id@),
            },
    {
        match self.blocks.get(block_id) {
            Some(block) => Some((block.length, &block.digest)),
            None => None,
        }
    }

    /// The memory of a block.
    pub fn block_allocation_id(&self, block_id: &Vec<u8>) -> (found: Option<u64>)
        ensures
            found == self@.allocation_of(block_id@),
    {
        match self.blocks.get(block_id) {
            Some(block) => Some(block.allocation_id),
            None => None,
        }
    }

    /// Whether a block may still be written through a mapping.
    pub fn block_has_unreturned_write(&self, block_id: &Vec<u8>) -> (writable: bool)
        ensures
            writable == self@.has_writer(block_id@),
    {
        match self.blocks.get(block_id) {
            Some(block) => block.writer.is_some(),
            None => false,
        }
    }

    /// Whether a session can still write to a block through a mapping.
    pub fn session_has_unreturned_write(&self, session_id: u64) -> (writable: bool)
        ensures
            writable == self@.written_by(session_id),
    {
        let by_session = |id: &Vec<u8>, block: &BlockEntry| -> (met: bool)
            ensures
                met == (block@.writer == Some(session_id)),
        {
            match block.writer {
                Some(writer) => writer == session_id,
                None => false,
            }
        };
        self.blocks.any(
            by_session,
            Ghost(|id: Seq<u8>, block: BlockView| block.writer == Some(session_id)),
        )
    }

    /// Stores bytes under a block's name. A block that is already there is kept if it holds the
    /// same bytes.
    pub fn commit_inline_with_verified_digest(
        &mut self,
        block_id: Vec<u8>,
        bytes: Vec<u8>,
        digest: Vec<u8>,
    ) -> (stored: Result<(), ArenaError>)
        requires
            old(self)@.wf(),
            digest@ == sha256_of(bytes@),
        ensures
            final(self)@.wf(),
            match stored {
                Ok(_) => old(self)@.stored(block_id@, bytes@, digest@) == Ok::<
                    ArenaView,
                    ArenaError,
                >(final(self)@),
                Err(error) => final(self)@ == old(self)@ && old(self)@.stored(
                    block_id@,
                    bytes@,
                    digest@,
                ) == Err::<ArenaView, ArenaError>(error),
            },
    {
        let ghost before = self@;
        if bytes.len() == 0 {
            return Err(ArenaError::EmptyPayload);
        }
        let length: u64 = bytes.len() as u64;
        match self.blocks.get(&block_id) {
            Some(block) => {
                return if block.length == length && same_bytes(&block.digest, &digest) {
                    Ok(())
                } else {
                    Err(ArenaError::ReceiptConflict)
                };
            },
            None => {},
        }
        if length > self.capacity - self.used {
            return Err(ArenaError::CapacityExhausted);
        }
        if self.next_allocation == u64::MAX {
            return Err(ArenaError::RegionOverflow);
        }
        let allocation_id: u64 = self.next_allocation;
        proof {
            assert(!before.contents.contains_key(allocation_id));
            lemma_total_insert(before.contents, content_weight(), allocation_id, bytes@);
        }
        self.next_allocation = allocation_id + 1;
        self.used = self.used + length;
        self.contents.insert(allocation_id, bytes);
        self.blocks.insert(
            block_id,
            BlockEntry {
                allocation_id,
                length,
                digest,
                version: None,
                writer: None,
                release_token: Vec::new(),
            },
        );
        proof {
            let next = self@;
            assert(next =~= before.stored(block_id@, bytes@, digest@)->Ok_0);
            assert forall|id: Seq<u8>| #[trigger] next.blocks.contains_key(id) implies next.block_wf(
                id,
            ) by {
                if id != block_id@ {
                    assert(before.block_wf(id));
                }
            }
            assert forall|left: Seq<u8>, right: Seq<u8>|
                #![trigger next.blocks[left], next.blocks[right]]
                next.blocks.contains_key(left) && next.blocks.contains_key(right) && left
                    != right implies next.blocks[left].allocation_id
                != next.blocks[right].allocation_id by {
                if left != block_id@ {
                    assert(before.block_wf(left));
                }
                if right != block_id@ {
                    assert(before.block_wf(right));
                }
            }
            assert forall|id: u64| #[trigger] next.stagings.contains_key(id) implies next.staging_wf(
                id,
            ) by {
                assert(before.staging_wf(id));
            }
        }
        Ok(())
    }

    /// Retires a block: its name and its memory are free again.
    pub fn retire_block(&mut self, block_id: &Vec<u8>)
        requires
            old(self)@.wf(),
        ensures
            final(self)@.wf(),
            final(self)@ == old(self)@.retired(block_id@),
    {
        let ghost before = self@;
        match self.blocks.remove(block_id) {
            None => {
                assert(self@ =~= before);
            },
            Some(block) => {
                proof {
                    assert(before.block_wf(block_id@));
                    lemma_total_remove(before.contents, content_weight(), block.allocation_id);
                    lemma_retired(before, block_id@);
                }
                self.used = self.used - block.length;
                let _ = self.contents.remove(&block.allocation_id);
                assert(self@ =~= before.retired(block_id@));
            },
        }
    }

    /// Notes the version under which a block was published.
    pub fn mark_committed(&mut self, block_id: &Vec<u8>, version: u64)
        requires
            old(self)@.wf(),
        ensures
            final(self)@.wf(),
            final(self)@ == old(self)@.committed(block_id@, version),
    {
        let ghost before = self@;
        match self.blocks.remove(block_id) {
            None => {
                assert(self@ =~= before);
            },
            Some(block) => {
                let published = BlockEntry { version: Some(version), ..block };
                self.blocks.insert(copy_bytes(block_id), published);
                assert(self@ =~= before.committed(block_id@, version));
                proof {
                    lemma_same_memory(before, self@);
                }
            },
        }
    }
}

/// The arena stays sound where only what is noted beside a block's memory changes.
pub proof fn lemma_same_memory(before: ArenaView, next: ArenaView)
    requires
        before.wf(),
        next == (ArenaView { blocks: next.blocks, sessions: next.sessions, ..before }),
        next.blocks.dom() == before.blocks.dom(),
        forall|id: Seq<u8>| #[trigger]
            next.blocks.contains_key(id) ==> next.blocks[id].allocation_id
                == before.blocks[id].allocation_id && next.blocks[id].length
                == before.blocks[id].length && next.blocks[id].digest == before.blocks[id].digest,
    ensures
        next.wf(),
{
    assert forall|id: Seq<u8>| #[trigger] next.blocks.contains_key(id) implies next.block_wf(
        id,
    ) by {
        assert(before.block_wf(id));
    }
    assert forall|left: Seq<u8>, right: Seq<u8>|
        #![trigger next.blocks[left], next.blocks[right]]
        next.blocks.contains_key(left) && next.blocks.contains_key(right) && left
            != right implies next.blocks[left].allocation_id
        != next.blocks[right].allocation_id by {
        assert(before.blocks.contains_key(left) && before.blocks.contains_key(right));
        assert(before.blocks[left].allocation_id != before.blocks[right].allocation_id);
    }
    assert forall|id: u64| #[trigger] next.stagings.contains_key(id) implies next.staging_wf(
        id,
    ) by {
        assert(before.staging_wf(id));
    }
}

} // verus!
