//! The parts of the arena that come before a block: staged payloads, and space set aside for
//! files.
use crate::arena::{
    Arena, ArenaReadTicket, BlockEntry, FileSpaceConsumption, HostReceipt, HostRegionGrant,
    HostShmDescriptor,
    ReleasedWriteAllocation, StagingEntry,
};
#[allow(unused_imports)]
use crate::arena::{
    content_weight, lemma_same_memory, reservation_weight, staging_weight, ArenaView, BlockView,
    ReceiptView, StagingView,
};
use crate::bytes::{copy_bytes, same_bytes};
#[allow(unused_imports)]
use crate::bytes::views;
use crate::digest::digest;
#[allow(unused_imports)]
use crate::digest::sha256_of;
use crate::error::ArenaError;
#[allow(unused_imports)]
use crate::table::{
    keys_are, lemma_total_insert, lemma_total_remove, lemma_total_replace, total,
};
use vstd::prelude::*;

verus! {

/// A moment some time after another. Beyond the end of time there is none.
pub open spec fn later(now: u64, delay: u64) -> u64 {
    if now + delay > u64::MAX {
        u64::MAX
    } else {
        (now + delay) as u64
    }
}

/// A moment some time after another. Beyond the end of time there is none.
pub fn moment_after(now: u64, delay: u64) -> (moment: u64)
    ensures
        moment == later(now, delay),
{
    now.saturating_add(delay)
}

impl ArenaView {
    /// The arena with only those staged payloads that are in a set.
    pub open spec fn keeping(self, kept: Set<u64>) -> ArenaView {
        let stagings = self.stagings.restrict(kept);
        ArenaView {
            used: (total(self.contents, content_weight()) + total(stagings, staging_weight())
                + total(self.reservations, reservation_weight())) as u64,
            stagings,
            ..self
        }
    }

    /// The arena after a session's staged payloads were dropped.
    pub open spec fn reclaimed(self, session_id: u64) -> ArenaView {
        ArenaView {
            sessions: self.sessions.remove(session_id),
            ..self.keeping(
                Set::new(
                    |id: u64|
                        self.stagings.contains_key(id) && self.stagings[id].session_id
                            != session_id,
                ),
            )
        }
    }

    /// The arena after what had expired was dropped.
    pub open spec fn ticked(self, now: u64) -> ArenaView {
        self.keeping(
            Set::new(
                |id: u64| self.stagings.contains_key(id) && self.stagings[id].expires_at > now,
            ),
        )
    }

    /// What setting memory aside for a payload does.
    pub open spec fn allocated(
        self,
        session_id: u64,
        length: u64,
        shared: bool,
        release_token: Seq<u8>,
        now: u64,
    ) -> Result<ArenaView, ArenaError> {
        if length == 0 {
            Err(ArenaError::EmptyPayload)
        } else if self.used + length > self.capacity {
            Err(ArenaError::CapacityExhausted)
        } else if self.next_allocation == u64::MAX {
            Err(ArenaError::RegionOverflow)
        } else {
            Ok(
                ArenaView {
                    used: (self.used + length) as u64,
                    next_allocation: (self.next_allocation + 1) as u64,
                    stagings: self.stagings.insert(
                        self.next_allocation,
                        StagingView {
                            session_id,
                            length,
                            payload: None,
                            digest: Seq::empty(),
                            shared,
                            release_token,
                            expires_at: later(now, self.staging_ttl),
                        },
                    ),
                    ..self
                },
            )
        }
    }

    /// What filling a staged payload does.
    pub open spec fn uploaded(self, transfer_id: u64, bytes: Seq<u8>) -> Result<
        ArenaView,
        ArenaError,
    > {
        if !self.stagings.contains_key(transfer_id) {
            Err(ArenaError::UnknownTransfer)
        } else if self.stagings[transfer_id].length != bytes.len() {
            Err(ArenaError::LengthMismatch)
        } else {
            Ok(
                ArenaView {
                    stagings: self.stagings.insert(
                        transfer_id,
                        StagingView {
                            payload: Some(bytes),
                            digest: sha256_of(bytes),
                            ..self.stagings[transfer_id]
                        },
                    ),
                    ..self
                },
            )
        }
    }

    /// The block whose memory it is.
    pub open spec fn owner_of(self, allocation_id: u64) -> Option<Seq<u8>> {
        if exists|id: Seq<u8>|
            #![trigger self.blocks.contains_key(id)]
            self.blocks.contains_key(id) && self.blocks[id].allocation_id == allocation_id {
            Some(
                choose|id: Seq<u8>|
                    #![trigger self.blocks.contains_key(id)]
                    self.blocks.contains_key(id) && self.blocks[id].allocation_id == allocation_id,
            )
        } else {
            None
        }
    }

    /// What giving a writable mapping back does. Without a token nothing is given back: the
    /// block stays as it is.
    pub open spec fn returned(self, session_id: u64, allocation_id: u64, token: Seq<u8>) -> Result<
        ArenaView,
        ArenaError,
    > {
        match self.owner_of(allocation_id) {
            None => Err(ArenaError::StaleHandle),
            Some(id) => if self.blocks[id].writer is None {
                Ok(self)
            } else if self.blocks[id].writer != Some(session_id) || token.len() == 0
                || self.blocks[id].release_token != token {
                Err(ArenaError::RegionAccessDenied)
            } else {
                Ok(
                    ArenaView {
                        blocks: self.blocks.insert(
                            id,
                            BlockView { writer: None, ..self.blocks[id] },
                        ),
                        ..self
                    },
                )
            },
        }
    }

    /// The shared memory that a session may read for a ticket, if the arena has any.
    pub open spec fn shm_read(
        self,
        session_id: u64,
        ticket: ArenaReadTicket,
        transfer_id: u64,
        view_epoch: u64,
    ) -> Result<Option<HostShmDescriptor>, ArenaError> {
        if !self.shared {
            Ok(None)
        } else if !self.sessions.contains(session_id) {
            Err(ArenaError::RegionAccessDenied)
        } else if !self.contents.contains_key(ticket.handle.allocation_id) {
            Err(ArenaError::StaleHandle)
        } else {
            Ok(
                Some(
                    HostShmDescriptor {
                        allocation_id: ticket.handle.allocation_id,
                        transfer_id,
                        offset: ticket.offset,
                        length: ticket.length,
                        view_epoch: Some(view_epoch),
                    },
                ),
            )
        }
    }

    /// The right of a session to map a region. What another session stages is not for it, and it
    /// writes only to what it stages itself.
    pub open spec fn region(self, session_id: u64, region_id: u64) -> Result<
        HostRegionGrant,
        ArenaError,
    > {
        if !self.shared {
            Err(ArenaError::SharedMemoryUnavailable)
        } else if !self.sessions.contains(session_id) {
            Err(ArenaError::RegionAccessDenied)
        } else if self.stagings.contains_key(region_id) {
            if self.stagings[region_id].session_id != session_id
                || !self.stagings[region_id].shared {
                Err(ArenaError::RegionAccessDenied)
            } else {
                Ok(
                    HostRegionGrant {
                        region_id,
                        length: self.stagings[region_id].length,
                        writable: true,
                    },
                )
            }
        } else if self.contents.contains_key(region_id) {
            Ok(
                HostRegionGrant {
                    region_id,
                    length: self.contents[region_id].len() as u64,
                    writable: false,
                },
            )
        } else {
            Err(ArenaError::UnknownRegion)
        }
    }

    /// What setting space aside for a file does.
    pub open spec fn reserved(self, reservation_id: Seq<u8>, length: u64) -> Result<
        ArenaView,
        ArenaError,
    > {
        if self.reservations.contains_key(reservation_id) {
            Err(ArenaError::ReservationConflict)
        } else if self.used + length > self.capacity {
            Err(ArenaError::CapacityExhausted)
        } else {
            Ok(
                ArenaView {
                    used: (self.used + length) as u64,
                    reservations: self.reservations.insert(reservation_id, length),
                    ..self
                },
            )
        }
    }

    /// What taking space out of a reservation does.
    pub open spec fn consumed(self, reservation_id: Seq<u8>, length: u64) -> Result<
        ArenaView,
        ArenaError,
    > {
        if !self.reservations.contains_key(reservation_id) {
            Err(ArenaError::UnknownReservation)
        } else if length > self.reservations[reservation_id] {
            Err(ArenaError::LengthMismatch)
        } else {
            Ok(
                ArenaView {
                    used: (self.used - length) as u64,
                    reservations: self.reservations.insert(
                        reservation_id,
                        (self.reservations[reservation_id] - length) as u64,
                    ),
                    ..self
                },
            )
        }
    }

    /// What taking space out of several reservations in turn does.
    pub open spec fn consumed_all(self, ranges: Seq<(Seq<u8>, u64)>) -> Result<
        ArenaView,
        ArenaError,
    >
        decreases ranges.len(),
    {
        if ranges.len() == 0 {
            Ok(self)
        } else {
            match self.consumed_all(ranges.drop_last()) {
                Err(error) => Err(error),
                Ok(next) => next.consumed(ranges.last().0, ranges.last().1),
            }
        }
    }

    /// What putting consumed space back does.
    pub open spec fn restored(self, reservation_id: Seq<u8>, length: u64) -> Result<
        ArenaView,
        ArenaError,
    > {
        if !self.reservations.contains_key(reservation_id) {
            Err(ArenaError::UnknownReservation)
        } else if self.used + length > self.capacity {
            Err(ArenaError::CapacityExhausted)
        } else {
            Ok(
                ArenaView {
                    used: (self.used + length) as u64,
                    reservations: self.reservations.insert(
                        reservation_id,
                        (self.reservations[reservation_id] + length) as u64,
                    ),
                    ..self
                },
            )
        }
    }

    /// What giving reserved space up does.
    pub open spec fn released(self, reservation_id: Seq<u8>, length: u64) -> Result<
        ArenaView,
        ArenaError,
    > {
        if !self.reservations.contains_key(reservation_id) {
            Err(ArenaError::UnknownReservation)
        } else if length > self.reservations[reservation_id] {
            Err(ArenaError::LengthMismatch)
        } else {
            Ok(
                ArenaView {
                    used: (self.used - length) as u64,
                    reservations: if length == self.reservations[reservation_id] {
                        self.reservations.remove(reservation_id)
                    } else {
                        self.reservations.insert(
                            reservation_id,
                            (self.reservations[reservation_id] - length) as u64,
                        )
                    },
                    ..self
                },
            )
        }
    }
}

/// What is taken from one reservation by a list of ranges.
spec fn taken(ranges: Seq<(Seq<u8>, u64)>, id: Seq<u8>) -> nat
    decreases ranges.len(),
{
    if ranges.len() == 0 {
        0
    } else {
        taken(ranges.drop_last(), id) + if ranges.last().0 == id {
            ranges.last().1 as nat
        } else {
            0
        }
    }
}

/// What is taken by a list of ranges from all reservations.
spec fn taken_in_all(ranges: Seq<(Seq<u8>, u64)>) -> nat
    decreases ranges.len(),
{
    if ranges.len() == 0 {
        0
    } else {
        taken_in_all(ranges.drop_last()) + ranges.last().1 as nat
    }
}

proof fn lemma_taken_first(ranges: Seq<(Seq<u8>, u64)>, id: Seq<u8>)
    requires
        ranges.len() > 0,
    ensures
        taken(ranges, id) == taken(ranges.drop_first(), id) + if ranges[0].0 == id {
            ranges[0].1 as nat
        } else {
            0
        },
        taken_in_all(ranges) == taken_in_all(ranges.drop_first()) + ranges[0].1 as nat,
    decreases ranges.len(),
{
    if ranges.len() > 1 {
        lemma_taken_first(ranges.drop_last(), id);
        assert(ranges.drop_last().drop_first() =~= ranges.drop_first().drop_last());
    } else {
        assert(ranges.drop_first() =~= Seq::empty());
        assert(ranges.drop_last() =~= Seq::empty());
        assert(taken(Seq::<(Seq<u8>, u64)>::empty(), id) == 0);
        assert(taken_in_all(Seq::<(Seq<u8>, u64)>::empty()) == 0);
        assert(taken(ranges.drop_last(), id) == 0);
        assert(taken_in_all(ranges.drop_last()) == 0);
    }
}

/// Whether `next` is `before` without what the ranges take.
spec fn lacks(before: ArenaView, next: ArenaView, ranges: Seq<(Seq<u8>, u64)>) -> bool {
    &&& next == (ArenaView { used: next.used, reservations: next.reservations, ..before })
    &&& next.used + taken_in_all(ranges) == before.used
    &&& next.reservations.dom() == before.reservations.dom()
    &&& forall|id: Seq<u8>| #[trigger]
        next.reservations.contains_key(id) ==> next.reservations[id] + taken(ranges, id)
            == before.reservations[id]
    &&& forall|i: int|
        #![trigger ranges[i]]
        0 <= i < ranges.len() ==> before.reservations.contains_key(ranges[i].0)
}

proof fn lemma_consume_fault_stays(before: ArenaView, ranges: Seq<(Seq<u8>, u64)>, n: int)
    requires
        0 <= n <= ranges.len(),
        before.consumed_all(ranges.take(n)) is Err,
    ensures
        before.consumed_all(ranges) == before.consumed_all(ranges.take(n)),
    decreases ranges.len() - n,
{
    if n < ranges.len() {
        assert(ranges.take(n + 1).drop_last() =~= ranges.take(n));
        lemma_consume_fault_stays(before, ranges, n + 1);
    } else {
        assert(ranges.take(n) =~= ranges);
    }
}

/// The arena stays sound where only reservations change, if what they hold is counted.
proof fn lemma_same_blocks(before: ArenaView, next: ArenaView)
    requires
        before.wf(),
        next == (ArenaView {
            used: next.used,
            stagings: next.stagings,
            next_allocation: next.next_allocation,
            reservations: next.reservations,
            sessions: next.sessions,
            staging_ttl: next.staging_ttl,
            ..before
        }),
        before.next_allocation <= next.next_allocation,
        next.used == next.held(),
        next.used <= next.capacity,
        next.stagings.dom().finite(),
        next.reservations.dom().finite(),
        forall|id: u64| #[trigger] next.stagings.contains_key(id) ==> next.staging_wf(id),
    ensures
        next.wf(),
{
    assert forall|id: Seq<u8>| #[trigger] next.blocks.contains_key(id) implies next.block_wf(
        id,
    ) by {
        assert(before.block_wf(id));
    }
}

/// Memory is set aside for a payload if the payload is not empty and there is room for it. It takes up
/// the payload's length, belongs to the session that asked for it, has no bytes yet, and is kept for
/// the time that staged payloads have. Nothing else changes.
pub proof fn what_is_set_aside_waits_for_its_bytes(
    arena: ArenaView,
    session_id: u64,
    length: u64,
    shared: bool,
    release_token: Seq<u8>,
    now: u64,
    other: u64,
)
    requires
        arena.wf(),
        now + arena.staging_ttl <= u64::MAX,
    ensures
        ({
            let result = arena.allocated(session_id, length, shared, release_token, now);
            &&& result is Ok <==> 0 < length && arena.used + length <= arena.capacity
                && arena.next_allocation < u64::MAX
            &&& result matches Ok(next) ==> {
                let made = next.stagings[arena.next_allocation];
                &&& !arena.stagings.contains_key(arena.next_allocation)
                &&& next.stagings.contains_key(arena.next_allocation)
                &&& made.session_id == session_id
                &&& made.length == length
                &&& made.payload is None
                &&& made.shared == shared
                &&& made.release_token == release_token
                &&& made.expires_at == now + arena.staging_ttl
                &&& next.next_allocation == arena.next_allocation + 1
                &&& next.used == arena.used + length
                &&& other != arena.next_allocation ==> next.stagings.contains_key(other)
                    == arena.stagings.contains_key(other) && next.stagings[other]
                    == arena.stagings[other]
                &&& next.blocks == arena.blocks
                &&& next.contents == arena.contents
                &&& next.reservations == arena.reservations
                &&& next.sessions == arena.sessions
            }
        }),
{
    if arena.stagings.contains_key(arena.next_allocation) {
        assert(arena.staging_wf(arena.next_allocation));
    }
}

/// A staged payload takes bytes if it is there and they are as many as were announced. It then holds
/// exactly these bytes and their digest, and is otherwise as it was. Nothing else changes.
pub proof fn a_staged_payload_holds_what_was_sent(
    arena: ArenaView,
    transfer_id: u64,
    bytes: Seq<u8>,
    other: u64,
)
    ensures
        ({
            let result = arena.uploaded(transfer_id, bytes);
            &&& result is Ok <==> arena.stagings.contains_key(transfer_id)
                && arena.stagings[transfer_id].length == bytes.len()
            &&& result matches Ok(next) ==> {
                &&& next.stagings.contains_key(transfer_id)
                &&& next.stagings[transfer_id] == (StagingView {
                    payload: Some(bytes),
                    digest: sha256_of(bytes),
                    ..arena.stagings[transfer_id]
                })
                &&& other != transfer_id ==> next.stagings.contains_key(other)
                    == arena.stagings.contains_key(other) && next.stagings[other]
                    == arena.stagings[other]
                &&& next.used == arena.used
                &&& next.blocks == arena.blocks
                &&& next.contents == arena.contents
            }
        }),
{
}

/// What a session staged goes when the session goes, and what anybody staged goes when its time is
/// over. Nothing else goes, and no block does.
pub proof fn staged_payloads_go_with_their_session_or_their_time(
    arena: ArenaView,
    session_id: u64,
    now: u64,
    staging_id: u64,
)
    ensures
        ({
            let next = arena.reclaimed(session_id);
            &&& next.stagings.contains_key(staging_id) <==> arena.stagings.contains_key(staging_id)
                && arena.stagings[staging_id].session_id != session_id
            &&& next.stagings.contains_key(staging_id) ==> next.stagings[staging_id]
                == arena.stagings[staging_id]
            &&& !next.sessions.contains(session_id)
            &&& forall|other: u64|
                other != session_id ==> #[trigger] next.sessions.contains(other)
                    == arena.sessions.contains(other)
            &&& next.blocks == arena.blocks
            &&& next.contents == arena.contents
            &&& next.reservations == arena.reservations
        }),
        ({
            let next = arena.ticked(now);
            &&& next.stagings.contains_key(staging_id) <==> arena.stagings.contains_key(staging_id)
                && now < arena.stagings[staging_id].expires_at
            &&& next.stagings.contains_key(staging_id) ==> next.stagings[staging_id]
                == arena.stagings[staging_id]
            &&& next.sessions == arena.sessions
            &&& next.blocks == arena.blocks
            &&& next.contents == arena.contents
            &&& next.reservations == arena.reservations
        }),
        ({
            let next = arena.unstaged(staging_id);
            &&& !next.stagings.contains_key(staging_id)
            &&& next.stagings =~= arena.stagings.remove(staging_id)
            &&& arena.wf() && arena.stagings.contains_key(staging_id) ==> next.used == arena.used
                - arena.stagings[staging_id].length
            &&& next.blocks == arena.blocks
            &&& next.contents == arena.contents
        }),
{
    if arena.wf() && arena.stagings.contains_key(staging_id) {
        lemma_total_remove(arena.stagings, staging_weight(), staging_id);
    }
}

/// Space that is set aside for a file counts as used until it is consumed or given up, and no other
/// reservation is touched. A reservation has a name of its own, gives no more than it holds, and is
/// gone once all of it was given up.
pub proof fn reserved_space_is_counted(
    arena: ArenaView,
    reservation_id: Seq<u8>,
    length: u64,
    other: Seq<u8>,
)
    requires
        arena.wf(),
    ensures
        ({
            let known = arena.reservations.contains_key(reservation_id);
            let held = arena.reservations[reservation_id];
            &&& arena.reserved(reservation_id, length) is Ok <==> !known && arena.used + length
                <= arena.capacity
            &&& arena.reserved(reservation_id, length) matches Ok(next) ==> {
                &&& next.reservations.contains_key(reservation_id)
                &&& next.reservations[reservation_id] == length
                &&& next.used == arena.used + length
                &&& other != reservation_id ==> next.reservations.contains_key(other)
                    == arena.reservations.contains_key(other) && next.reservations[other]
                    == arena.reservations[other]
                &&& next.blocks == arena.blocks && next.stagings == arena.stagings
            }
            &&& arena.consumed(reservation_id, length) is Ok <==> known && length <= held
            &&& arena.consumed(reservation_id, length) matches Ok(next) ==> {
                &&& next.reservations.contains_key(reservation_id)
                &&& next.reservations[reservation_id] == held - length
                &&& next.used == arena.used - length
                &&& other != reservation_id ==> next.reservations.contains_key(other)
                    == arena.reservations.contains_key(other) && next.reservations[other]
                    == arena.reservations[other]
                &&& next.blocks == arena.blocks && next.stagings == arena.stagings
            }
            &&& arena.restored(reservation_id, length) is Ok <==> known && arena.used + length
                <= arena.capacity
            &&& arena.restored(reservation_id, length) matches Ok(next) ==> {
                &&& next.reservations.contains_key(reservation_id)
                &&& next.reservations[reservation_id] == held + length
                &&& next.used == arena.used + length
                &&& other != reservation_id ==> next.reservations.contains_key(other)
                    == arena.reservations.contains_key(other) && next.reservations[other]
                    == arena.reservations[other]
                &&& next.blocks == arena.blocks && next.stagings == arena.stagings
            }
            &&& arena.released(reservation_id, length) is Ok <==> known && length <= held
            &&& arena.released(reservation_id, length) matches Ok(next) ==> {
                &&& next.reservations.contains_key(reservation_id) <==> length < held
                &&& length < held ==> next.reservations[reservation_id] == held - length
                &&& next.used == arena.used - length
                &&& other != reservation_id ==> next.reservations.contains_key(other)
                    == arena.reservations.contains_key(other) && next.reservations[other]
                    == arena.reservations[other]
                &&& next.blocks == arena.blocks && next.stagings == arena.stagings
            }
        }),
{
    if arena.reservations.contains_key(reservation_id) {
        lemma_total_remove(arena.reservations, reservation_weight(), reservation_id);
    }
}

/// A session that has shared memory may map its own shared payloads to write to them, and every
/// block's memory to read it, at their full length, and nothing else. What a read is handed of shared
/// memory is the range that its ticket is for.
pub proof fn a_region_is_mapped_by_who_may_use_it(
    arena: ArenaView,
    session_id: u64,
    region_id: u64,
    ticket: ArenaReadTicket,
    transfer_id: u64,
    view_epoch: u64,
)
    requires
        arena.wf(),
    ensures
        ({
            let staged = arena.stagings.contains_key(region_id);
            let own = staged && arena.stagings[region_id].session_id == session_id
                && arena.stagings[region_id].shared;
            let stored = !staged && arena.contents.contains_key(region_id);
            &&& arena.region(session_id, region_id) is Ok <==> arena.shared
                && arena.sessions.contains(session_id) && (own || stored)
            &&& arena.region(session_id, region_id) matches Ok(grant) ==> {
                &&& grant.region_id == region_id
                &&& grant.writable <==> staged
                &&& staged ==> grant.length == arena.stagings[region_id].length
                &&& !staged && arena.contents[region_id].len() <= u64::MAX ==> grant.length
                    == arena.contents[region_id].len()
            }
        }),
        ({
            let read = arena.shm_read(session_id, ticket, transfer_id, view_epoch);
            &&& read == Ok::<Option<HostShmDescriptor>, ArenaError>(None) <==> !arena.shared
            &&& read matches Ok(Some(descriptor)) ==> {
                &&& arena.sessions.contains(session_id)
                &&& arena.contents.contains_key(descriptor.allocation_id)
                &&& descriptor.allocation_id == ticket.handle.allocation_id
                &&& descriptor.offset == ticket.offset
                &&& descriptor.length == ticket.length
                &&& descriptor.transfer_id == transfer_id
                &&& descriptor.view_epoch == Some(view_epoch)
            }
            &&& arena.shared && arena.sessions.contains(session_id) && arena.contents.contains_key(
                ticket.handle.allocation_id,
            ) ==> read is Ok
        }),
{
}

/// What is taken out of several reservations is taken out of all or of none. Each then holds less by what
/// was asked of it, what is used shrinks by all of it together, and no other reservation is touched.
pub proof fn space_is_taken_from_all_or_from_none(
    arena: ArenaView,
    ranges: Seq<(Seq<u8>, u64)>,
    id: Seq<u8>,
)
    requires
        arena.wf(),
    ensures
        arena.consumed_all(ranges) matches Ok(next) ==> {
            &&& next.reservations.contains_key(id) == arena.reservations.contains_key(id)
            &&& arena.reservations.contains_key(id) ==> next.reservations[id]
                == arena.reservations[id] - asked_of(ranges, id)
            &&& !arena.reservations.contains_key(id) ==> asked_of(ranges, id) == 0
            &&& next.blocks == arena.blocks
            &&& next.stagings == arena.stagings
            &&& next.contents == arena.contents
            &&& next.wf()
        },
    decreases ranges.len(),
{
    if ranges.len() > 0 {
        let rest = ranges.drop_last();
        space_is_taken_from_all_or_from_none(arena, rest, id);
        if let Ok(earlier) = arena.consumed_all(rest) {
            if let Ok(next) = earlier.consumed(ranges.last().0, ranges.last().1) {
                lemma_consumed_is_sound(earlier, ranges.last().0, ranges.last().1);
            }
        }
    }
}

/// What a list of ranges asks of one reservation.
pub open spec fn asked_of(ranges: Seq<(Seq<u8>, u64)>, id: Seq<u8>) -> nat
    decreases ranges.len(),
{
    if ranges.len() == 0 {
        0
    } else {
        asked_of(ranges.drop_last(), id) + if ranges.last().0 == id {
            ranges.last().1 as nat
        } else {
            0
        }
    }
}

proof fn lemma_consumed_is_sound(before: ArenaView, id: Seq<u8>, length: u64)
    requires
        before.wf(),
        before.consumed(id, length) is Ok,
    ensures
        before.consumed(id, length)->Ok_0.wf(),
{
    let next = before.consumed(id, length)->Ok_0;
    crate::table::lemma_total_replace(
        before.reservations,
        reservation_weight(),
        id,
        (before.reservations[id] - length) as u64,
    );
    lemma_total_remove(before.reservations, reservation_weight(), id);
    assert forall|block: Seq<u8>| #[trigger] next.blocks.contains_key(block) implies next.block_wf(
        block,
    ) by {
        assert(before.block_wf(block));
    }
    assert forall|staging: u64| #[trigger] next.stagings.contains_key(
        staging,
    ) implies next.staging_wf(staging) by {
        assert(before.staging_wf(staging));
    }
}

/// A session can map what it was told to write to, what it was told to read, and only its own of
/// what is staged.
pub proof fn a_session_can_map_what_it_was_told_of(
    arena: ArenaView,
    session_id: u64,
    length: u64,
    release_token: Seq<u8>,
    now: u64,
    ticket: ArenaReadTicket,
    transfer_id: u64,
    view_epoch: u64,
    other_session: u64,
)
    requires
        arena.wf(),
        arena.shared,
        arena.sessions.contains(session_id),
        other_session != session_id,
        arena.sessions.contains(other_session),
    ensures
        arena.allocated(session_id, length, true, release_token, now) matches Ok(next) ==> {
            &&& next.region(session_id, arena.next_allocation) == Ok::<HostRegionGrant, ArenaError>(
                HostRegionGrant { region_id: arena.next_allocation, length, writable: true },
            )
            &&& next.region(other_session, arena.next_allocation) == Err::<
                HostRegionGrant,
                ArenaError,
            >(ArenaError::RegionAccessDenied)
        },
        arena.shm_read(session_id, ticket, transfer_id, view_epoch) matches Ok(Some(descriptor))
            ==> {
            let granted = arena.region(session_id, descriptor.allocation_id);
            &&& granted is Ok
            &&& !granted->Ok_0.writable
        },
{
    let read = ticket.handle.allocation_id;
    if arena.contents.contains_key(read) && arena.stagings.contains_key(read) {
        assert(arena.staging_wf(read));
    }
}

/// An arena without a staged payload is sound.
proof fn lemma_unstaged(before: ArenaView, staging_id: u64)
    requires
        before.wf(),
    ensures
        before.unstaged(staging_id).wf(),
{
    if before.stagings.contains_key(staging_id) {
        let next = before.unstaged(staging_id);
        lemma_total_remove(before.stagings, staging_weight(), staging_id);
        assert(next.stagings.dom() =~= before.stagings.dom().remove(staging_id));
        assert forall|id: u64| #[trigger] next.stagings.contains_key(id) implies next.staging_wf(
            id,
        ) by {
            assert(before.staging_wf(id));
        }
        lemma_same_blocks(before, next);
    }
}

/// Turning a staged payload into a block leaves the arena sound, and the blocks that are there hold
/// what they held.
pub proof fn lemma_sealed(
    before: ArenaView,
    session_id: u64,
    staging_id: u64,
    receipt: ReceiptView,
    block_id: Seq<u8>,
)
    requires
        before.wf(),
        before.sealed(session_id, staging_id, receipt, block_id) is Ok,
    ensures
        ({
            let next = before.sealed(session_id, staging_id, receipt, block_id)->Ok_0;
            &&& next.wf()
            &&& forall|id: Seq<u8>| #[trigger]
                before.blocks.contains_key(id) ==> next.blocks.contains_key(id)
                    && next.block_bytes(id) == before.block_bytes(id)
        }),
{
    let next = before.sealed(session_id, staging_id, receipt, block_id)->Ok_0;
    if before.blocks.contains_key(block_id) {
        lemma_unstaged(before, staging_id);
    } else {
        lemma_sealed_is_sound(before, session_id, staging_id, receipt, block_id);
        assert(before.staging_wf(staging_id));
        assert forall|id: Seq<u8>| #[trigger] before.blocks.contains_key(id) implies
            next.blocks.contains_key(id) && next.block_bytes(id) == before.block_bytes(id) by {
            assert(before.block_wf(id));
        }
    }
}

/// A block made of a staged payload leaves the arena sound.
proof fn lemma_sealed_is_sound(
    before: ArenaView,
    session_id: u64,
    staging_id: u64,
    receipt: ReceiptView,
    block_id: Seq<u8>,
)
    requires
        before.wf(),
        before.staging_fault(session_id, staging_id, receipt) is None,
        !before.blocks.contains_key(block_id),
    ensures
        before.sealed(session_id, staging_id, receipt, block_id)->Ok_0.wf(),
{
    let next = before.sealed(session_id, staging_id, receipt, block_id)->Ok_0;
    let payload = before.stagings[staging_id].payload->0;
    assert(before.staging_wf(staging_id));
    lemma_total_remove(before.stagings, staging_weight(), staging_id);
    lemma_total_insert(before.contents, content_weight(), staging_id, payload);
    assert(next.stagings.dom() =~= before.stagings.dom().remove(staging_id));
    assert(next.contents.dom() =~= before.contents.dom().insert(staging_id));
    assert forall|id: Seq<u8>| #[trigger] next.blocks.contains_key(id) implies next.block_wf(
        id,
    ) by {
        if id != block_id {
            assert(before.block_wf(id));
        }
    }
    assert forall|left: Seq<u8>, right: Seq<u8>|
        #![trigger next.blocks[left], next.blocks[right]]
        next.blocks.contains_key(left) && next.blocks.contains_key(right) && left
            != right implies next.blocks[left].allocation_id
        != next.blocks[right].allocation_id by {
        if left != block_id {
            assert(before.block_wf(left));
        }
        if right != block_id {
            assert(before.block_wf(right));
        }
        if left != block_id && right != block_id {
            assert(before.blocks[left].allocation_id != before.blocks[right].allocation_id);
        }
    }
    assert forall|id: u64| #[trigger] next.stagings.contains_key(id) implies next.staging_wf(
        id,
    ) by {
        assert(before.staging_wf(id));
    }
}

/// A client that wrote a payload through a mapping keeps the block writable until it gives the
/// mapping back, under the number of the staged payload and with the token of its receipt. Under
/// any other session or token nothing is given back, and without a token the block stays writable.
pub proof fn a_mapping_is_given_back_with_its_token(
    before: ArenaView,
    session_id: u64,
    staging_id: u64,
    receipt: ReceiptView,
    block_id: Seq<u8>,
    other_session: u64,
    other_token: Seq<u8>,
)
    requires
        before.wf(),
        before.staging_fault(session_id, staging_id, receipt) is None,
        before.stagings[staging_id].shared,
        !before.blocks.contains_key(block_id),
        other_session != session_id || other_token != receipt.release_token || other_token.len()
            == 0,
    ensures
        ({
            let next = before.sealed(session_id, staging_id, receipt, block_id)->Ok_0;
            &&& before.sealed(session_id, staging_id, receipt, block_id) is Ok
            &&& next.has_writer(block_id)
            &&& next.returned(other_session, staging_id, other_token) == Err::<
                ArenaView,
                ArenaError,
            >(ArenaError::RegionAccessDenied)
            &&& receipt.release_token.len() > 0 ==> {
                let given_back = next.returned(session_id, staging_id, receipt.release_token);
                &&& given_back is Ok
                &&& !given_back->Ok_0.has_writer(block_id)
                &&& given_back->Ok_0.block_bytes(block_id) == before.stagings[staging_id].payload->0
            }
        }),
{
    let next = before.sealed(session_id, staging_id, receipt, block_id)->Ok_0;
    lemma_sealed_is_sound(before, session_id, staging_id, receipt, block_id);
    assert(next.blocks.contains_key(block_id));
    let owner = next.owner_of(staging_id)->0;
    if owner != block_id {
        assert(next.blocks[owner].allocation_id != next.blocks[block_id].allocation_id);
    }
}

impl Arena {
    /// Lets a session have shared memory.
    pub fn register_session(&mut self, session_id: u64)
        requires
            old(self)@.wf(),
        ensures
            final(self)@.wf(),
            final(self)@ == (ArenaView {
                sessions: old(self)@.sessions.insert(session_id),
                ..old(self)@
            }),
    {
        let ghost before = self@;
        self.sessions.insert(session_id);
        proof {
            lemma_same_memory(before, self@);
        }
    }

    fn drop_staging(&mut self, staging_id: u64) -> (dropped: Option<StagingEntry>)
        requires
            old(self)@.wf(),
        ensures
            final(self)@.wf(),
            final(self)@ == old(self)@.unstaged(staging_id),
            match dropped {
                Some(staging) => old(self)@.stagings.contains_key(staging_id)
                    && old(self)@.stagings[staging_id] == staging@,
                None => !old(self)@.stagings.contains_key(staging_id),
            },
    {
        let ghost before = self@;
        match self.stagings.remove(&staging_id) {
            None => {
                assert(self@ =~= before);
                None
            },
            Some(staging) => {
                proof {
                    lemma_total_remove(before.stagings, staging_weight(), staging_id);
                    lemma_unstaged(before, staging_id);
                }
                self.used = self.used - staging.length;
                assert(self@ =~= before.unstaged(staging_id));
                Some(staging)
            },
        }
    }

    fn drop_stagings(&mut self, ids: &Vec<u64>, Ghost(dropped): Ghost<Set<u64>>)
        requires
            old(self)@.wf(),
            keys_are(ids@, dropped),
        ensures
            final(self)@.wf(),
            final(self)@ == old(self)@.keeping(
                Set::new(|id: u64| old(self)@.stagings.contains_key(id) && !dropped.contains(id)),
            ),
    {
        let ghost before = self@;
        let mut i: usize = 0;
        while i < ids.len()
            invariant
                i <= ids@.len(),
                keys_are(ids@, dropped),
                self@.wf(),
                self@ == (ArenaView {
                    used: self@.used,
                    stagings: self@.stagings,
                    ..before
                }),
                self@.stagings =~= before.stagings.remove_keys(
                    Set::new(
                        |id: u64| exists|j: int| #![trigger ids@[j]] 0 <= j < i && ids@[j]@ == id,
                    ),
                ),
            decreases ids.len() - i,
        {
            let _ = self.drop_staging(ids[i]);
            i = i + 1;
        }
        proof {
            let kept = Set::new(
                |id: u64| before.stagings.contains_key(id) && !dropped.contains(id),
            );
            assert(self@.stagings =~= before.stagings.restrict(kept)) by {
                assert forall|id: u64| before.stagings.contains_key(id) implies (
                dropped.contains(id) == exists|j: int|
                    #![trigger ids@[j]]
                    0 <= j < i && ids@[j]@ == id) by {
                    if dropped.contains(id) {
                        let j = choose|j: int|
                            #![trigger ids@[j]]
                            0 <= j < ids@.len() && ids@[j]@ == id;
                        assert(ids@[j]@ == id);
                    }
                }
            }
        }
    }

    /// Drops every staged payload of a session.
    pub fn reclaim_session(&mut self, session_id: u64)
        requires
            old(self)@.wf(),
        ensures
            final(self)@.wf(),
            final(self)@ == old(self)@.reclaimed(session_id),
    {
        let ghost before = self@;
        let of_session = |id: &u64, staging: &StagingEntry| -> (met: bool)
            ensures
                met == (staging@.session_id == session_id),
        {
            staging.session_id == session_id
        };
        let ids = self.stagings.keys_where(
            of_session,
            Ghost(|id: u64, staging: StagingView| staging.session_id == session_id),
        );
        let ghost dropped = Set::new(
            |id: u64|
                before.stagings.contains_key(id) && (|id: u64, staging: StagingView|
                    staging.session_id == session_id)(id, before.stagings[id]),
        );
        self.drop_stagings(&ids, Ghost(dropped));
        let ghost middle = self@;
        self.sessions.remove(&session_id);
        proof {
            lemma_same_memory(middle, self@);
            let kept = Set::new(
                |id: u64| before.stagings.contains_key(id) && !dropped.contains(id),
            );
            assert(kept =~= Set::new(
                |id: u64|
                    before.stagings.contains_key(id) && before.stagings[id].session_id
                        != session_id,
            ));
        }
    }

    /// Drops what has expired.
    pub fn tick(&mut self, now: u64)
        requires
            old(self)@.wf(),
        ensures
            final(self)@.wf(),
            final(self)@ == old(self)@.ticked(now),
    {
        let ghost before = self@;
        let expired = |id: &u64, staging: &StagingEntry| -> (met: bool)
            ensures
                met == (staging@.expires_at <= now),
        {
            staging.expires_at <= now
        };
        let ids = self.stagings.keys_where(
            expired,
            Ghost(|id: u64, staging: StagingView| staging.expires_at <= now),
        );
        let ghost dropped = Set::new(
            |id: u64|
                before.stagings.contains_key(id) && (|id: u64, staging: StagingView|
                    staging.expires_at <= now)(id, before.stagings[id]),
        );
        self.drop_stagings(&ids, Ghost(dropped));
        proof {
            let kept = Set::new(
                |id: u64| before.stagings.contains_key(id) && !dropped.contains(id),
            );
            assert(kept =~= Set::new(
                |id: u64| before.stagings.contains_key(id) && before.stagings[id].expires_at > now,
            ));
        }
    }

    /// Drops a staged payload of a session, if it is there.
    pub fn delete_staging(&mut self, session_id: u64, staging_id: u64)
        requires
            old(self)@.wf(),
        ensures
            final(self)@.wf(),
            final(self)@ == (if old(self)@.staged_by(staging_id, session_id) {
                old(self)@.unstaged(staging_id)
            } else {
                old(self)@
            }),
    {
        let owned: bool = match self.stagings.get(&staging_id) {
            Some(staging) => staging.session_id == session_id,
            None => false,
        };
        if owned {
            let _ = self.drop_staging(staging_id);
        }
    }

    /// Sets memory aside for a payload and returns its name.
    pub fn allocate(
        &mut self,
        session_id: u64,
        length: u64,
        shared: bool,
        release_token: Vec<u8>,
        now: u64,
    ) -> (allocated: Result<u64, ArenaError>)
        requires
            old(self)@.wf(),
        ensures
            final(self)@.wf(),
            match allocated {
                Ok(staging_id) => staging_id == old(self)@.next_allocation && old(self)@.allocated(
                    session_id,
                    length,
                    shared,
                    release_token@,
                    now,
                ) == Ok::<ArenaView, ArenaError>(final(self)@),
                Err(error) => final(self)@ == old(self)@ && old(self)@.allocated(
                    session_id,
                    length,
                    shared,
                    release_token@,
                    now,
                ) == Err::<ArenaView, ArenaError>(error),
            },
    {
        let ghost before = self@;
        if length == 0 {
            return Err(ArenaError::EmptyPayload);
        }
        if length > self.capacity - self.used {
            return Err(ArenaError::CapacityExhausted);
        }
        if self.next_allocation == u64::MAX {
            return Err(ArenaError::RegionOverflow);
        }
        let staging_id: u64 = self.next_allocation;
        let staging = StagingEntry {
            session_id,
            length,
            payload: None,
            digest: Vec::new(),
            shared,
            release_token,
            expires_at: moment_after(now, self.staging_ttl),
        };
        proof {
            assert(!before.stagings.contains_key(staging_id)) by {
                if before.stagings.contains_key(staging_id) {
                    assert(before.staging_wf(staging_id));
                }
            }
            lemma_total_insert(before.stagings, staging_weight(), staging_id, staging@);
        }
        self.next_allocation = staging_id + 1;
        self.used = self.used + length;
        self.stagings.insert(staging_id, staging);
        proof {
            let next = self@;
            assert forall|id: u64| #[trigger] next.stagings.contains_key(id) implies next.staging_wf(
                id,
            ) by {
                if id != staging_id {
                    assert(before.staging_wf(id));
                }
            }
            lemma_same_blocks(before, next);
        }
        Ok(staging_id)
    }

    /// Fills a staged payload and returns what there is to show for it.
    pub fn upload(&mut self, transfer_id: u64, bytes: Vec<u8>) -> (uploaded: Result<
        HostReceipt,
        ArenaError,
    >)
        requires
            old(self)@.wf(),
        ensures
            final(self)@.wf(),
            match uploaded {
                Ok(receipt) => {
                    &&& old(self)@.uploaded(transfer_id, bytes@) == Ok::<ArenaView, ArenaError>(
                        final(self)@,
                    )
                    &&& receipt@ == (ReceiptView {
                        length: bytes@.len() as u64,
                        digest: sha256_of(bytes@),
                        release_token: old(self)@.stagings[transfer_id].release_token,
                    })
                },
                Err(error) => final(self)@ == old(self)@ && old(self)@.uploaded(transfer_id, bytes@)
                    == Err::<ArenaView, ArenaError>(error),
            },
    {
        let ghost before = self@;
        let ghost payload = bytes@;
        let length: u64 = bytes.len() as u64;
        let release_token: Vec<u8> = match self.stagings.get(&transfer_id) {
            None => return Err(ArenaError::UnknownTransfer),
            Some(staging) => {
                if staging.length != length {
                    return Err(ArenaError::LengthMismatch);
                }
                copy_bytes(&staging.release_token)
            },
        };
        let proof_of_bytes: Vec<u8> = digest(&bytes);
        let receipt = HostReceipt {
            length,
            digest: copy_bytes(&proof_of_bytes),
            release_token,
        };
        match self.stagings.remove(&transfer_id) {
            None => {},
            Some(staging) => {
                let filled = StagingEntry {
                    payload: Some(bytes),
                    digest: proof_of_bytes,
                    ..staging
                };
                let ghost filled_view = filled@;
                self.stagings.insert(transfer_id, filled);
                proof {
                    let next = self@;
                    assert(before.staging_wf(transfer_id));
                    lemma_total_replace(
                        before.stagings,
                        staging_weight(),
                        transfer_id,
                        filled_view,
                    );
                    assert(next.stagings =~= before.stagings.insert(transfer_id, filled_view));
                    assert forall|id: u64| #[trigger]
                        next.stagings.contains_key(id) implies next.staging_wf(id) by {
                        if id != transfer_id {
                            assert(before.staging_wf(id));
                        }
                    }
                    lemma_same_blocks(before, next);
                }
            },
        }
        Ok(receipt)
    }

    fn check_staging(&self, session_id: u64, staging_id: u64, receipt: &HostReceipt) -> (fault:
        Option<ArenaError>)
        ensures
            fault == self@.staging_fault(session_id, staging_id, receipt@),
    {
        match self.stagings.get(&staging_id) {
            None => Some(ArenaError::UnknownStaging),
            Some(staging) => {
                if staging.session_id != session_id {
                    Some(ArenaError::UnknownStaging)
                } else if staging.payload.is_none() {
                    Some(ArenaError::StagingNotWritable)
                } else if receipt.length != staging.length || !same_bytes(
                    &receipt.digest,
                    &staging.digest,
                ) {
                    Some(ArenaError::ReceiptConflict)
                } else {
                    None
                }
            },
        }
    }

    /// Takes a staged payload out.
    pub fn take_staging_bytes(
        &mut self,
        session_id: u64,
        staging_id: u64,
        receipt: &HostReceipt,
    ) -> (taken: Result<Vec<u8>, ArenaError>)
        requires
            old(self)@.wf(),
        ensures
            final(self)@.wf(),
            match taken {
                Ok(bytes) => {
                    &&& old(self)@.staging_fault(session_id, staging_id, receipt@) is None
                    &&& old(self)@.stagings[staging_id].payload == Some(bytes@)
                    &&& final(self)@ == old(self)@.unstaged(staging_id)
                },
                Err(error) => {
                    &&& old(self)@.staging_fault(session_id, staging_id, receipt@) == Some(error)
                    &&& final(self)@ == old(self)@
                },
            },
    {
        match self.check_staging(session_id, staging_id, receipt) {
            Some(error) => return Err(error),
            None => {},
        }
        match self.drop_staging(staging_id) {
            Some(staging) => match staging.payload {
                Some(bytes) => Ok(bytes),
                None => Err(ArenaError::StagingNotWritable),
            },
            None => Err(ArenaError::UnknownStaging),
        }
    }

    /// Turns a staged payload into a block. A block that is already there is kept if it holds
    /// the same bytes.
    pub fn commit_staging(
        &mut self,
        session_id: u64,
        staging_id: u64,
        receipt: &HostReceipt,
        block_id: Vec<u8>,
    ) -> (sealed: Result<(), ArenaError>)
        requires
            old(self)@.wf(),
        ensures
            final(self)@.wf(),
            match sealed {
                Ok(_) => old(self)@.sealed(session_id, staging_id, receipt@, block_id@) == Ok::<
                    ArenaView,
                    ArenaError,
                >(final(self)@),
                Err(error) => final(self)@ == old(self)@ && old(self)@.sealed(
                    session_id,
                    staging_id,
                    receipt@,
                    block_id@,
                ) == Err::<ArenaView, ArenaError>(error),
            },
    {
        let ghost before = self@;
        match self.check_staging(session_id, staging_id, receipt) {
            Some(error) => return Err(error),
            None => {},
        }
        proof {
            assert(before.staging_wf(staging_id));
            lemma_total_remove(before.stagings, staging_weight(), staging_id);
        }
        let known: bool = self.blocks.contains(&block_id);
        if known {
            let conflict: bool = match (self.blocks.get(&block_id), self.stagings.get(&staging_id)) {
                (Some(block), Some(staging)) => block.length != staging.length || !same_bytes(
                    &block.digest,
                    &staging.digest,
                ),
                _ => true,
            };
            if conflict {
                return Err(ArenaError::ReceiptConflict);
            }
            let _ = self.drop_staging(staging_id);
            return Ok(());
        }
        match self.stagings.remove(&staging_id) {
            None => Err(ArenaError::UnknownStaging),
            Some(staging) => match staging.payload {
                None => Err(ArenaError::StagingNotWritable),
                Some(bytes) => {
                    let ghost payload = bytes@;
                    let block = BlockEntry {
                        allocation_id: staging_id,
                        length: staging.length,
                        digest: staging.digest,
                        version: None,
                        writer: if staging.shared {
                            Some(session_id)
                        } else {
                            None
                        },
                        release_token: if staging.shared {
                            copy_bytes(&receipt.release_token)
                        } else {
                            Vec::new()
                        },
                    };
                    self.contents.insert(staging_id, bytes);
                    self.blocks.insert(block_id, block);
                    proof {
                        lemma_total_insert(before.contents, content_weight(), staging_id, payload);
                        assert(self@ =~= before.sealed(
                            session_id,
                            staging_id,
                            receipt@,
                            block_id@,
                        )->Ok_0);
                        lemma_sealed_is_sound(before, session_id, staging_id, receipt@, block_id@);
                    }
                    Ok(())
                },
            },
        }
    }

    /// The right of a session to map a region.
    pub fn acquire_region(&self, session_id: u64, region_id: u64) -> (acquired: Result<
        HostRegionGrant,
        ArenaError,
    >)
        ensures
            acquired == self@.region(session_id, region_id),
    {
        if !self.shared {
            return Err(ArenaError::SharedMemoryUnavailable);
        }
        if !self.sessions.contains(&session_id) {
            return Err(ArenaError::RegionAccessDenied);
        }
        if let Some(staging) = self.stagings.get(&region_id) {
            return if staging.session_id != session_id || !staging.shared {
                Err(ArenaError::RegionAccessDenied)
            } else {
                Ok(HostRegionGrant { region_id, length: staging.length, writable: true })
            };
        }
        match self.contents.get(&region_id) {
            Some(bytes) => Ok(
                HostRegionGrant { region_id, length: bytes.len() as u64, writable: false },
            ),
            None => Err(ArenaError::UnknownRegion),
        }
    }

    /// Takes a writable mapping of a block back from the session that has it.
    pub fn release_write_allocation(
        &mut self,
        session_id: u64,
        released: &ReleasedWriteAllocation,
    ) -> (returned: Result<(), ArenaError>)
        requires
            old(self)@.wf(),
        ensures
            final(self)@.wf(),
            match returned {
                Ok(_) => old(self)@.returned(
                    session_id,
                    released.allocation_id,
                    released.release_token@,
                ) == Ok::<ArenaView, ArenaError>(final(self)@),
                Err(error) => final(self)@ == old(self)@ && old(self)@.returned(
                    session_id,
                    released.allocation_id,
                    released.release_token@,
                ) == Err::<ArenaView, ArenaError>(error),
            },
    {
        let ghost before = self@;
        let allocation_id: u64 = released.allocation_id;
        let is_it = |id: &Vec<u8>, block: &BlockEntry| -> (met: bool)
            ensures
                met == (block@.allocation_id == allocation_id),
        {
            block.allocation_id == allocation_id
        };
        let owners = self.blocks.keys_where(
            is_it,
            Ghost(|id: Seq<u8>, block: BlockView| block.allocation_id == allocation_id),
        );
        let ghost wanted = Set::new(
            |id: Seq<u8>|
                before.blocks.contains_key(id) && (|id: Seq<u8>, block: BlockView|
                    block.allocation_id == allocation_id)(id, before.blocks[id]),
        );
        if owners.len() == 0 {
            proof {
                assert forall|id: Seq<u8>|
                    #![trigger before.blocks.contains_key(id)]
                    before.blocks.contains_key(id) implies before.blocks[id].allocation_id
                    != allocation_id by {
                    if before.blocks[id].allocation_id == allocation_id {
                        assert(wanted.contains(id));
                    }
                }
            }
            return Err(ArenaError::StaleHandle);
        }
        let owner = copy_bytes(&owners[0]);
        proof {
            assert(wanted.contains(owners@[0]@));
            assert(before.blocks.contains_key(owner@));
            let chosen = before.owner_of(allocation_id)->0;
            if chosen != owner@ {
                assert(before.blocks[chosen].allocation_id != before.blocks[owner@].allocation_id);
            }
        }
        match self.blocks.get(&owner) {
            None => return Err(ArenaError::StaleHandle),
            Some(block) => match block.writer {
                None => return Ok(()),
                Some(writer) => {
                    if writer != session_id || released.release_token.len() == 0 || !same_bytes(
                        &block.release_token,
                        &released.release_token,
                    ) {
                        return Err(ArenaError::RegionAccessDenied);
                    }
                },
            },
        }
        if let Some(block) = self.blocks.remove(&owner) {
            let quiet = BlockEntry { writer: None, ..block };
            self.blocks.insert(owner, quiet);
        }
        proof {
            assert(self@ =~= before.returned(
                session_id,
                released.allocation_id,
                released.release_token@,
            )->Ok_0);
            lemma_same_memory(before, self@);
        }
        Ok(())
    }

    /// The shared memory that a session may read for a ticket, if the arena has any.
    pub fn shm_descriptor_for_read(
        &self,
        session_id: u64,
        ticket: ArenaReadTicket,
        transfer_id: u64,
        view_epoch: u64,
    ) -> (descriptor: Result<Option<HostShmDescriptor>, ArenaError>)
        ensures
            descriptor == self@.shm_read(session_id, ticket, transfer_id, view_epoch),
    {
        if !self.shared {
            return Ok(None);
        }
        if !self.sessions.contains(&session_id) {
            return Err(ArenaError::RegionAccessDenied);
        }
        if !self.contents.contains(&ticket.handle.allocation_id) {
            return Err(ArenaError::StaleHandle);
        }
        Ok(
            Some(
                HostShmDescriptor {
                    allocation_id: ticket.handle.allocation_id,
                    transfer_id,
                    offset: ticket.offset,
                    length: ticket.length,
                    view_epoch: Some(view_epoch),
                },
            ),
        )
    }

    /// Sets space aside for a file.
    pub fn reserve_file_space(&mut self, reservation_id: Vec<u8>, length: u64) -> (reserved: Result<
        (),
        ArenaError,
    >)
        requires
            old(self)@.wf(),
        ensures
            final(self)@.wf(),
            match reserved {
                Ok(_) => old(self)@.reserved(reservation_id@, length) == Ok::<
                    ArenaView,
                    ArenaError,
                >(final(self)@),
                Err(error) => final(self)@ == old(self)@ && old(self)@.reserved(
                    reservation_id@,
                    length,
                ) == Err::<ArenaView, ArenaError>(error),
            },
    {
        let ghost before = self@;
        if self.reservations.contains(&reservation_id) {
            return Err(ArenaError::ReservationConflict);
        }
        if length > self.capacity - self.used {
            return Err(ArenaError::CapacityExhausted);
        }
        proof {
            lemma_total_insert(
                before.reservations,
                reservation_weight(),
                reservation_id@,
                length,
            );
        }
        self.used = self.used + length;
        self.reservations.insert(reservation_id, length);
        proof {
            lemma_keep_stagings(before, self@);
            lemma_same_blocks(before, self@);
        }
        Ok(())
    }

    fn set_reservation(&mut self, reservation_id: &Vec<u8>, length: u64)
        requires
            old(self)@.wf(),
            old(self)@.reservations.contains_key(reservation_id@),
            old(self)@.used + length - old(self)@.reservations[reservation_id@] <= old(
                self,
            )@.capacity,
        ensures
            final(self)@.wf(),
            final(self)@ == (ArenaView {
                used: (old(self)@.used + length - old(self)@.reservations[reservation_id@]) as u64,
                reservations: old(self)@.reservations.insert(reservation_id@, length),
                ..old(self)@
            }),
    {
        let ghost before = self@;
        if let Some(current) = self.reservations.get(reservation_id) {
            let current: u64 = *current;
            proof {
                lemma_total_remove(before.reservations, reservation_weight(), reservation_id@);
                lemma_total_replace(
                    before.reservations,
                    reservation_weight(),
                    reservation_id@,
                    length,
                );
            }
            self.used = self.used - current + length;
            self.reservations.insert(copy_bytes(reservation_id), length);
            proof {
                lemma_keep_stagings(before, self@);
                lemma_same_blocks(before, self@);
            }
        }
    }

    /// Takes space out of a reservation, so that a block can have it.
    pub fn consume_file_space(&mut self, reservation_id: &Vec<u8>, length: u64) -> (consumed: Result<
        FileSpaceConsumption,
        ArenaError,
    >)
        requires
            old(self)@.wf(),
        ensures
            final(self)@.wf(),
            match consumed {
                Ok(consumption) => consumption@ == (reservation_id@, length) && old(self)@.consumed(
                    reservation_id@,
                    length,
                ) == Ok::<ArenaView, ArenaError>(final(self)@),
                Err(error) => final(self)@ == old(self)@ && old(self)@.consumed(
                    reservation_id@,
                    length,
                ) == Err::<ArenaView, ArenaError>(error),
            },
    {
        match self.reservations.get(reservation_id) {
            None => Err(ArenaError::UnknownReservation),
            Some(current) => {
                let current: u64 = *current;
                if length > current {
                    return Err(ArenaError::LengthMismatch);
                }
                proof {
                    lemma_total_remove(self@.reservations, reservation_weight(), reservation_id@);
                }
                self.set_reservation(reservation_id, current - length);
                Ok(FileSpaceConsumption { reservation_id: copy_bytes(reservation_id), length })
            },
        }
    }

    /// Puts consumed space back.
    pub fn restore_file_space(&mut self, consumption: &FileSpaceConsumption) -> (restored: Result<
        (),
        ArenaError,
    >)
        requires
            old(self)@.wf(),
        ensures
            final(self)@.wf(),
            match restored {
                Ok(_) => old(self)@.restored(consumption@.0, consumption@.1) == Ok::<
                    ArenaView,
                    ArenaError,
                >(final(self)@),
                Err(error) => final(self)@ == old(self)@ && old(self)@.restored(
                    consumption@.0,
                    consumption@.1,
                ) == Err::<ArenaView, ArenaError>(error),
            },
    {
        match self.reservations.get(&consumption.reservation_id) {
            None => Err(ArenaError::UnknownReservation),
            Some(current) => {
                let current: u64 = *current;
                if consumption.length > self.capacity - self.used {
                    return Err(ArenaError::CapacityExhausted);
                }
                proof {
                    lemma_total_remove(
                        self@.reservations,
                        reservation_weight(),
                        consumption.reservation_id@,
                    );
                }
                self.set_reservation(&consumption.reservation_id, current + consumption.length);
                Ok(())
            },
        }
    }

    /// Gives reserved space up.
    pub fn release_file_space(&mut self, reservation_id: &Vec<u8>, length: u64) -> (released: Result<
        (),
        ArenaError,
    >)
        requires
            old(self)@.wf(),
        ensures
            final(self)@.wf(),
            match released {
                Ok(_) => old(self)@.released(reservation_id@, length) == Ok::<
                    ArenaView,
                    ArenaError,
                >(final(self)@),
                Err(error) => final(self)@ == old(self)@ && old(self)@.released(
                    reservation_id@,
                    length,
                ) == Err::<ArenaView, ArenaError>(error),
            },
    {
        let ghost before = self@;
        match self.reservations.get(reservation_id) {
            None => Err(ArenaError::UnknownReservation),
            Some(current) => {
                let current: u64 = *current;
                if length > current {
                    return Err(ArenaError::LengthMismatch);
                }
                proof {
                    lemma_total_remove(before.reservations, reservation_weight(), reservation_id@);
                }
                if length == current {
                    self.used = self.used - length;
                    let _ = self.reservations.remove(reservation_id);
                    proof {
                        assert(self@.reservations.dom() =~= before.reservations.dom().remove(
                            reservation_id@,
                        ));
                        lemma_keep_stagings(before, self@);
                        lemma_same_blocks(before, self@);
                    }
                } else {
                    self.set_reservation(reservation_id, current - length);
                }
                Ok(())
            },
        }
    }

    /// Takes space out of several reservations, or out of none: where one of them lacks it, what
    /// was taken before is put back.
    pub fn consume_file_ranges(&mut self, ranges: &Vec<(Vec<u8>, u64)>) -> (consumed: Result<
        Vec<FileSpaceConsumption>,
        ArenaError,
    >)
        requires
            old(self)@.wf(),
        ensures
            final(self)@.wf(),
            match consumed {
                Ok(consumptions) => {
                    &&& old(self)@.consumed_all(range_views(ranges@)) == Ok::<
                        ArenaView,
                        ArenaError,
                    >(final(self)@)
                    &&& views(consumptions@) == range_views(ranges@)
                },
                Err(error) => {
                    &&& old(self)@.consumed_all(range_views(ranges@)) == Err::<
                        ArenaView,
                        ArenaError,
                    >(error)
                    &&& final(self)@ == old(self)@
                },
            },
    {
        let ghost before = self@;
        let ghost wanted = range_views(ranges@);
        let mut consumed: Vec<FileSpaceConsumption> = Vec::with_capacity(ranges.len());
        let mut i: usize = 0;
        assert(wanted.take(0) =~= Seq::empty());
        while i < ranges.len()
            invariant
                i <= ranges@.len(),
                wanted == range_views(ranges@),
                self@.wf(),
                before.consumed_all(wanted.take(i as int)) == Ok::<ArenaView, ArenaError>(self@),
                lacks(before, self@, wanted.take(i as int)),
                views(consumed@) =~= wanted.take(i as int),
                before == old(self)@,
                before.wf(),
            decreases ranges.len() - i,
        {
            let ghost so_far = self@;
            let ghost done = consumed@;
            proof {
                assert(wanted.take(i + 1).drop_last() =~= wanted.take(i as int));
                assert(wanted.take(i + 1).last() == wanted[i as int]);
            }
            match self.consume_file_space(&ranges[i].0, ranges[i].1) {
                Ok(consumption) => {
                    consumed.push(consumption);
                    proof {
                        assert(views(consumed@) =~= wanted.take(i + 1));
                        assert(before.consumed_all(wanted.take(i + 1)) == so_far.consumed(
                            wanted[i as int].0,
                            wanted[i as int].1,
                        ));
                        lemma_total_remove(
                            so_far.reservations,
                            reservation_weight(),
                            wanted[i as int].0,
                        );
                        assert(lacks(before, self@, wanted.take(i + 1))) by {
                            assert forall|j: int| 0 <= j < i + 1 implies #[trigger]
                                before.reservations.contains_key(wanted.take(i + 1)[j].0) by {
                                if j < i {
                                    assert(wanted.take(i as int)[j] == wanted.take(i + 1)[j]);
                                }
                            }
                            assert(self@.reservations.dom() =~= before.reservations.dom());
                        }
                    }
                },
                Err(error) => {
                    proof {
                        assert(before.consumed_all(wanted.take(i + 1)) == so_far.consumed(
                            wanted[i as int].0,
                            wanted[i as int].1,
                        ));
                        lemma_consume_fault_stays(before, wanted, i + 1);
                    }
                    self.put_back(&consumed, Ghost(before));
                    return Err(error);
                },
            }
            i = i + 1;
        }
        assert(wanted.take(i as int) =~= wanted);
        Ok(consumed)
    }

    fn put_back(&mut self, consumed: &Vec<FileSpaceConsumption>, Ghost(before): Ghost<ArenaView>)
        requires
            old(self)@.wf(),
            before.wf(),
            lacks(before, old(self)@, views(consumed@)),
        ensures
            final(self)@ == before,
            final(self)@.wf(),
    {
        let mut i: usize = 0;
        let ghost all = views(consumed@);
        assert(all.skip(0) =~= all);
        while i < consumed.len()
            invariant
                i <= consumed@.len(),
                all == views(consumed@),
                self@.wf(),
                before.wf(),
                lacks(before, self@, all.skip(i as int)),
            decreases consumed.len() - i,
        {
            let ghost so_far = self@;
            let ghost rest = all.skip(i as int);
            proof {
                assert(rest[0] == consumed@[i as int]@);
                assert(rest.drop_first() =~= all.skip(i + 1));
                lemma_taken_first(rest, rest[0].0);
                assert(before.reservations.contains_key(rest[0].0));
                assert(so_far.reservations.contains_key(rest[0].0));
                assert(so_far.reservations[rest[0].0] + taken(rest, rest[0].0)
                    == before.reservations[rest[0].0]);
            }
            let _ = self.restore_file_space(&consumed[i]);
            proof {
                let next = self@;
                assert(so_far.restored(rest[0].0, rest[0].1) == Ok::<ArenaView, ArenaError>(next));
                assert(lacks(before, next, all.skip(i + 1))) by {
                    assert(next.reservations.dom() =~= before.reservations.dom());
                    assert forall|id: Seq<u8>| #[trigger]
                        next.reservations.contains_key(id) implies next.reservations[id] + taken(
                        all.skip(i + 1),
                        id,
                    ) == before.reservations[id] by {
                        lemma_taken_first(rest, id);
                        assert(so_far.reservations.contains_key(id));
                    }
                    assert forall|j: int| 0 <= j < all.skip(i + 1).len() implies #[trigger]
                        before.reservations.contains_key(all.skip(i + 1)[j].0) by {
                        assert(rest[j + 1] == all.skip(i + 1)[j]);
                    }
                }
            }
            i = i + 1;
        }
        proof {
            assert(all.skip(i as int) =~= Seq::empty());
            assert forall|id: Seq<u8>| #[trigger]
                self@.reservations.contains_key(id) implies self@.reservations[id]
                == before.reservations[id] by {
                assert(taken(all.skip(i as int), id) == 0);
            }
            assert(self@.reservations =~= before.reservations);
        }
    }
}

/// The ranges as values.
pub open spec fn range_views(ranges: Seq<(Vec<u8>, u64)>) -> Seq<(Seq<u8>, u64)> {
    ranges.map_values(|range: (Vec<u8>, u64)| (range.0@, range.1))
}

proof fn lemma_keep_stagings(before: ArenaView, next: ArenaView)
    requires
        before.wf(),
        next.stagings == before.stagings,
        next.next_allocation == before.next_allocation,
        next.contents == before.contents,
    ensures
        forall|id: u64| #[trigger] next.stagings.contains_key(id) ==> next.staging_wf(id),
{
    assert forall|id: u64| #[trigger] next.stagings.contains_key(id) implies next.staging_wf(
        id,
    ) by {
        assert(before.staging_wf(id));
    }
}

} // verus!
