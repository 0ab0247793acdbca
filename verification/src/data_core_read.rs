//! Reads for the node's own parts, which hand in a buffer and get it back filled. Bytes of blocks
//! that are missing are filled in once the blocks have been pulled.
#[allow(unused_imports)]
use crate::arena::ArenaView;
use crate::bytes::copy_bytes;
#[allow(unused_imports)]
use crate::bytes::{lemma_views_push, lemma_views_take, views};
use crate::error::WorkerError;
use crate::node::NodeState;
#[allow(unused_imports)]
use crate::node::NodeView;
use crate::node_read::normalize_read_range;
#[allow(unused_imports)]
use crate::node_read::read_range;
use crate::payload::Payload;
use crate::peer_import::PeerPullSpec;
#[allow(unused_imports)]
use crate::peer_import::PullSpecView;
use crate::protocol::ResolveObjectResponse;
#[allow(unused_imports)]
use crate::protocol::ResolvedView;
use crate::read_plan::DataCorePlannedReadPart;
#[allow(unused_imports)]
use crate::read_plan::{
    byte_at, content, gathered, is_local, lemma_plan, part_bytes, reached, reaches, readable, PartView,
};
use crate::table::Table;
use crate::version_layout::validate;
#[allow(unused_imports)]
use crate::version_layout::{layout_fault, run_end, source_at, ExtentView, Source};
use vstd::prelude::*;

verus! {

/// A part of a read whose bytes are in a block that is missing.
#[derive(Debug, PartialEq, Eq)]
pub struct RemoteReadPart {
    pub logical_offset: u64,
    pub block_id: Vec<u8>,
    pub block_offset: u64,
    pub length: u64,
}

impl View for RemoteReadPart {
    type V = PartView;

    open spec fn view(&self) -> PartView {
        PartView::Remote {
            offset: self.logical_offset,
            block_id: self.block_id@,
            block_offset: self.block_offset,
            length: self.length,
        }
    }
}

/// A filled buffer, with the version whose bytes it holds.
#[derive(Debug, PartialEq, Eq)]
pub struct DataCoreReadIntoResult {
    pub version: u64,
    pub logical_length: u64,
    pub bytes: Vec<u8>,
    /// How many bytes of the buffer were read. The rest is as it was.
    pub bytes_read: usize,
}

/// A filled buffer, as a value.
#[verifier::ext_equal]
pub struct ReadIntoView {
    pub version: u64,
    pub logical_length: u64,
    pub bytes: Seq<u8>,
    pub bytes_read: usize,
}

impl View for DataCoreReadIntoResult {
    type V = ReadIntoView;

    open spec fn view(&self) -> ReadIntoView {
        ReadIntoView {
            version: self.version,
            logical_length: self.logical_length,
            bytes: self.bytes@,
            bytes_read: self.bytes_read,
        }
    }
}

/// A buffer that still lacks the bytes of some blocks.
#[derive(Debug, PartialEq, Eq)]
pub struct PartialRead {
    /// The blocks to pull.
    pub specs: Vec<PeerPullSpec>,
    /// Those of them that the read waits for.
    pub required_blocks: Vec<Vec<u8>>,
    /// What the buffer lacks.
    pub remote_parts: Vec<RemoteReadPart>,
    pub version: u64,
    pub logical_length: u64,
    pub bytes_read: usize,
    pub output: Vec<u8>,
}

/// A buffer that still lacks the bytes of some blocks, as a value.
#[verifier::ext_equal]
pub struct PartialView {
    pub specs: Seq<PullSpecView>,
    pub required_blocks: Seq<Seq<u8>>,
    pub remote_parts: Seq<PartView>,
    pub version: u64,
    pub logical_length: u64,
    pub bytes_read: usize,
    pub output: Seq<u8>,
}

impl View for PartialRead {
    type V = PartialView;

    open spec fn view(&self) -> PartialView {
        PartialView {
            specs: views(self.specs@),
            required_blocks: views(self.required_blocks@),
            remote_parts: views(self.remote_parts@),
            version: self.version,
            logical_length: self.logical_length,
            bytes_read: self.bytes_read,
            output: self.output@,
        }
    }
}

/// What came of a read into a buffer.
#[derive(Debug, PartialEq, Eq)]
pub enum DataCoreMaterializeOutcome {
    Ready(DataCoreReadIntoResult),
    BufferTooSmall { version: u64, required: usize },
    NeedsRemoteBlocks(PartialRead),
    NotFound,
}

/// What came of a read into a buffer, as a value.
#[verifier::ext_equal]
pub enum IntoView {
    Ready(ReadIntoView),
    BufferTooSmall { version: u64, required: usize },
    NeedsRemoteBlocks(PartialView),
    NotFound,
}

impl View for DataCoreMaterializeOutcome {
    type V = IntoView;

    open spec fn view(&self) -> IntoView {
        match *self {
            DataCoreMaterializeOutcome::Ready(result) => IntoView::Ready(result@),
            DataCoreMaterializeOutcome::BufferTooSmall { version, required } =>
                IntoView::BufferTooSmall { version, required },
            DataCoreMaterializeOutcome::NeedsRemoteBlocks(partial) => IntoView::NeedsRemoteBlocks(
                partial@,
            ),
            DataCoreMaterializeOutcome::NotFound => IntoView::NotFound,
        }
    }
}

/// The right to cache an answer, as of the moment it was asked for.
#[derive(Debug, PartialEq, Eq)]
pub struct CacheRefill {
    pub token: u64,
    pub key: Vec<u8>,
    pub requested_at: u64,
    pub node_epoch: u64,
}

/// The right to cache an answer, as a value.
#[verifier::ext_equal]
pub struct RefillView {
    pub token: u64,
    pub key: Seq<u8>,
    pub requested_at: u64,
    pub node_epoch: u64,
}

impl View for CacheRefill {
    type V = RefillView;

    open spec fn view(&self) -> RefillView {
        RefillView {
            token: self.token,
            key: self.key@,
            requested_at: self.requested_at,
            node_epoch: self.node_epoch,
        }
    }
}

/// The value behind an optional item.
pub open spec fn view_of<T: View>(item: Option<T>) -> Option<T::V> {
    match item {
        Some(item) => Some(item@),
        None => None,
    }
}

/// A buffer with bytes written into it at some place.
pub open spec fn placed(output: Seq<u8>, at: int, bytes: Seq<u8>) -> Seq<u8> {
    output.subrange(0, at) + bytes + output.subrange(at + bytes.len(), output.len() as int)
}

/// A buffer with the bytes of the parts that are here written into it.
pub open spec fn filled(arena: ArenaView, parts: Seq<PartView>, output: Seq<u8>) -> Seq<u8>
    decreases parts.len(),
{
    if parts.len() == 0 {
        output
    } else {
        let earlier = filled(arena, parts.drop_last(), output);
        let part = parts.last();
        if is_local(part) {
            placed(earlier, part.start(), part_bytes(arena, part))
        } else {
            earlier
        }
    }
}

/// The parts whose blocks are missing.
pub open spec fn remote_of(parts: Seq<PartView>) -> Seq<PartView> {
    parts.filter(|part: PartView| part is Remote)
}

/// The names of some missing blocks.
pub open spec fn names_of(specs: Seq<PullSpecView>) -> Seq<Seq<u8>> {
    specs.map_values(|spec: PullSpecView| spec.block_id)
}

/// A buffer with the bytes of pulled blocks written into it, and whether they all were there.
/// The first part that cannot be filled in ends it.
pub open spec fn imported_into(
    parts: Seq<PartView>,
    imported: Map<Seq<u8>, Seq<u8>>,
    output: Seq<u8>,
) -> (Seq<u8>, Result<bool, WorkerError>)
    decreases parts.len(),
{
    if parts.len() == 0 {
        (output, Ok(true))
    } else {
        let (earlier, complete) = imported_into(parts.drop_last(), imported, output);
        if complete != Ok::<bool, WorkerError>(true) {
            (earlier, complete)
        } else {
            match parts.last() {
                PartView::Remote { offset, block_id, block_offset, length } => if !imported.contains_key(
                    block_id,
                ) {
                    (earlier, Ok(false))
                } else if block_offset + length > usize::MAX || offset + length > usize::MAX {
                    (earlier, Err(WorkerError::ResourceExhausted))
                } else if block_offset + length > imported[block_id].len() || offset + length
                    > earlier.len() {
                    (earlier, Err(WorkerError::Conflict))
                } else {
                    (
                        placed(
                            earlier,
                            offset as int,
                            imported[block_id].subrange(
                                block_offset as int,
                                block_offset + length,
                            ),
                        ),
                        Ok(true),
                    )
                },
                _ => (earlier, complete),
            }
        }
    }
}

impl NodeView {
    /// Whether a block of a layout is being retired.
    pub open spec fn retires(self, resolved: ResolvedView) -> bool {
        resolved.layout matches Some(layout) && exists|i: int|
            #![trigger layout.extents[i]]
            0 <= i < layout.extents.len() && self.retirements.retiring.contains(
                layout.extents[i].block_id,
            )
    }

    /// The state after an answer was offered to the cache. It is offered only while the
    /// metadata service keeps the node informed, and not where a block is being retired.
    pub open spec fn refilled(
        self,
        refill: Option<RefillView>,
        resolved: ResolvedView,
        now: u64,
    ) -> NodeView {
        if refill is Some && self.metadata_watch_connected && now < self.metadata_lease_until
            && !self.retires(resolved) {
            NodeView {
                cache: self.cache.offered(
                    refill->0.token,
                    refill->0.key,
                    resolved,
                    refill->0.requested_at,
                    refill->0.node_epoch,
                    now,
                ),
                ..self
            }
        } else {
            self
        }
    }

    /// The state after a read into a buffer, and what came of it.
    pub open spec fn materialized_into(
        self,
        read_scope_id: u64,
        resolved: ResolvedView,
        range: Option<(u64, u64)>,
        clamp: bool,
        output: Seq<u8>,
        refill: Option<RefillView>,
        prefetch: bool,
        now: u64,
    ) -> (NodeView, Result<IntoView, WorkerError>) {
        if resolved.layout is None {
            (self, Ok(IntoView::NotFound))
        } else {
            let layout = resolved.layout->0;
            if layout_fault(layout.logical_length, layout.extents) is Some {
                (self, Err(layout_fault(layout.logical_length, layout.extents)->0))
            } else {
                match read_range(range, layout.logical_length, clamp) {
                    Err(error) => (self, Err(error)),
                    Ok((start, length)) => if length > usize::MAX {
                        (self, Err(WorkerError::ResourceExhausted))
                    } else if length > output.len() {
                        (
                            self,
                            Ok(
                                IntoView::BufferTooSmall {
                                    version: layout.version,
                                    required: length as usize,
                                },
                            ),
                        )
                    } else {
                        match self.planned(
                            read_scope_id,
                            layout.extents,
                            resolved.block_replicas,
                            start as int,
                            start + length,
                        ) {
                            Err(error) => (self, Err(error)),
                            Ok((parts, missing)) => if missing.len() > 0 {
                                (
                                    self,
                                    Ok(
                                        IntoView::NeedsRemoteBlocks(
                                            PartialView {
                                                specs: if prefetch {
                                                    self.prefetched(
                                                        read_scope_id,
                                                        layout,
                                                        resolved.block_replicas,
                                                        start,
                                                        length,
                                                        missing,
                                                    )
                                                } else {
                                                    missing
                                                },
                                                required_blocks: names_of(missing),
                                                remote_parts: remote_of(parts),
                                                version: layout.version,
                                                logical_length: layout.logical_length,
                                                bytes_read: length as usize,
                                                output: filled(self.arena, parts, output),
                                            },
                                        ),
                                    ),
                                )
                            } else {
                                (
                                    self.refilled(refill, resolved, now),
                                    Ok(
                                        IntoView::Ready(
                                            ReadIntoView {
                                                version: layout.version,
                                                logical_length: layout.logical_length,
                                                bytes: filled(self.arena, parts, output),
                                                bytes_read: length as usize,
                                            },
                                        ),
                                    ),
                                )
                            },
                        }
                    },
                }
            }
        }
    }
}


/// A part's byte: zero, a byte of a block that is here, or a byte of a block that was pulled.
pub open spec fn part_byte(
    arena: ArenaView,
    imported: Map<Seq<u8>, Seq<u8>>,
    part: PartView,
    position: int,
) -> u8 {
    match part {
        PartView::Zero { .. } => 0,
        PartView::Block { read, .. } => arena.ticket_bytes(read)->Ok_0[position],
        PartView::Remote { block_id, block_offset, .. } => imported[block_id][block_offset
            + position],
    }
}

/// Whether a position of a read lies in a part.
pub open spec fn holds(part: PartView, position: int) -> bool {
    part.start() <= position < part.start() + part.length()
}

impl NodeView {
    /// A byte of a value some of whose blocks were pulled.
    pub open spec fn pulled_byte(
        self,
        imported: Map<Seq<u8>, Seq<u8>>,
        extents: Seq<ExtentView>,
        position: int,
    ) -> u8 {
        match source_at(extents, position) {
            Some(Source::Block { block_id, offset, .. }) => if self.imports.flights.contains_key(
                block_id,
            ) || !self.arena.blocks.contains_key(block_id) {
                imported[block_id][offset]
            } else {
                self.arena.block_bytes(block_id)[offset]
            },
            _ => 0,
        }
    }
}

/// Where parts follow each other, each starts where those before it end.
proof fn lemma_reaches_prefix(parts: Seq<PartView>, length: int, n: int)
    requires
        reaches(parts, length),
        0 <= n < parts.len(),
    ensures
        reaches(parts.take(n), parts[n].start()),
        parts[n].length() > 0,
        0 <= parts[n].start(),
        parts[n].start() + parts[n].length() <= length,
    decreases parts.len(),
{
    if n == parts.len() - 1 {
        assert(parts.take(n) =~= parts.drop_last());
    } else {
        lemma_reaches_prefix(parts.drop_last(), parts.last().start(), n);
        assert(parts.drop_last().take(n) =~= parts.take(n));
        assert(parts.drop_last()[n] == parts[n]);
    }
}

/// Where parts follow each other, each position lies in one of them.
proof fn lemma_part_at(parts: Seq<PartView>, length: int, position: int) -> (at: int)
    requires
        reaches(parts, length),
        0 <= position < length,
    ensures
        0 <= at < parts.len(),
        holds(parts[at], position),
    decreases parts.len(),
{
    if position >= parts.last().start() {
        parts.len() - 1
    } else {
        let at = lemma_part_at(parts.drop_last(), parts.last().start(), position);
        assert(parts.drop_last()[at] == parts[at]);
        at
    }
}

/// What a buffer holds after the parts that are here were written into it.
proof fn lemma_filled(
    arena: ArenaView,
    imported: Map<Seq<u8>, Seq<u8>>,
    parts: Seq<PartView>,
    output: Seq<u8>,
    length: int,
)
    requires
        reaches(parts, length),
        length <= output.len(),
        forall|i: int|
            #![trigger parts[i]]
            0 <= i < parts.len() ==> readable(arena, parts[i]),
    ensures
        ({
            let after = filled(arena, parts, output);
            &&& after.len() == output.len()
            &&& forall|position: int|
                #![trigger after[position]]
                length <= position < output.len() ==> after[position] == output[position]
            &&& forall|i: int, position: int|
                #![trigger parts[i], after[position]]
                0 <= i < parts.len() && is_local(parts[i]) && holds(parts[i], position)
                    ==> after[position] == part_byte(
                    arena,
                    imported,
                    parts[i],
                    position - parts[i].start(),
                )
        }),
    decreases parts.len(),
{
    if parts.len() > 0 {
        let rest = parts.drop_last();
        let part = parts.last();
        lemma_reaches_prefix(parts, length, parts.len() - 1);
        assert forall|i: int| #![trigger rest[i]] 0 <= i < rest.len() implies readable(
            arena,
            rest[i],
        ) by {
            assert(rest[i] == parts[i]);
        }
        lemma_filled(arena, imported, rest, output, part.start());
        let earlier = filled(arena, rest, output);
        let after = filled(arena, parts, output);
        assert(readable(arena, parts[parts.len() - 1]));
        if is_local(part) {
            assert(part_bytes(arena, part).len() == part.length());
        }
        assert forall|i: int, position: int|
            #![trigger parts[i], after[position]]
            0 <= i < parts.len() && is_local(parts[i]) && holds(parts[i], position) implies after[position]
            == part_byte(arena, imported, parts[i], position - parts[i].start()) by {
            if i < rest.len() {
                assert(rest[i] == parts[i]);
                lemma_reaches_prefix(rest, part.start(), i);
                assert(after[position] == earlier[position]);
            }
        }
    }
}

/// Whether a pulled block holds the bytes that a part wants.
pub open spec fn suffices(imported: Map<Seq<u8>, Seq<u8>>, part: PartView) -> bool {
    part matches PartView::Remote { block_id, block_offset, length, .. } ==> imported.contains_key(
        block_id,
    ) && block_offset + length <= imported[block_id].len() && imported[block_id].len() <= usize::MAX
}

/// What a buffer holds after the parts that were pulled were written into it.
proof fn lemma_imported(
    arena: ArenaView,
    imported: Map<Seq<u8>, Seq<u8>>,
    parts: Seq<PartView>,
    output: Seq<u8>,
    length: int,
)
    requires
        reaches(parts, length),
        length <= output.len() <= usize::MAX,
        forall|i: int|
            #![trigger parts[i]]
            0 <= i < parts.len() ==> suffices(imported, parts[i]),
    ensures
        ({
            let (after, complete) = imported_into(remote_of(parts), imported, output);
            &&& complete == Ok::<bool, WorkerError>(true)
            &&& after.len() == output.len()
            &&& forall|position: int|
                #![trigger after[position]]
                length <= position < output.len() ==> after[position] == output[position]
            &&& forall|i: int, position: int|
                #![trigger parts[i], after[position]]
                0 <= i < parts.len() && holds(parts[i], position) ==> after[position] == if is_local(
                    parts[i],
                ) {
                    output[position]
                } else {
                    part_byte(arena, imported, parts[i], position - parts[i].start())
                }
        }),
    decreases parts.len(),
{
    reveal(Seq::filter);
    if parts.len() > 0 {
        let rest = parts.drop_last();
        let part = parts.last();
        lemma_reaches_prefix(parts, length, parts.len() - 1);
        assert forall|i: int| #![trigger rest[i]] 0 <= i < rest.len() implies suffices(
            imported,
            rest[i],
        ) by {
            assert(rest[i] == parts[i]);
        }
        lemma_imported(arena, imported, rest, output, part.start());
        let (earlier, _) = imported_into(remote_of(rest), imported, output);
        let (after, complete) = imported_into(remote_of(parts), imported, output);
        assert(suffices(imported, parts[parts.len() - 1]));
        if part is Remote {
            assert(remote_of(parts) =~= remote_of(rest).push(part));
            assert(remote_of(parts).drop_last() =~= remote_of(rest));
        } else {
            assert(remote_of(parts) =~= remote_of(rest));
        }
        assert forall|i: int, position: int|
            #![trigger parts[i], after[position]]
            0 <= i < parts.len() && holds(parts[i], position) implies after[position] == (if is_local(
            parts[i],
        ) {
            output[position]
        } else {
            part_byte(arena, imported, parts[i], position - parts[i].start())
        }) by {
            if i < rest.len() {
                assert(rest[i] == parts[i]);
                lemma_reaches_prefix(rest, part.start(), i);
                assert(after[position] == earlier[position]);
            } else if is_local(part) {
                assert(after[position] == earlier[position]);
            }
        }
    } else {
        assert(remote_of(parts) =~= Seq::empty());
    }
}

/// The bytes of a plan's parts are those of the value.
proof fn lemma_plan_bytes(
    node: NodeView,
    read_scope_id: u64,
    extents: Seq<ExtentView>,
    sets: Seq<crate::protocol::ReplicaSetView>,
    start: int,
    end: int,
    imported: Map<Seq<u8>, Seq<u8>>,
)
    requires
        node.arena.wf(),
        run_end(0, extents) is Ok,
        0 <= start <= end <= u64::MAX,
        node.planned(read_scope_id, extents, sets, start, end) is Ok,
    ensures
        ({
            let parts = node.planned(read_scope_id, extents, sets, start, end)->Ok_0.0;
            forall|i: int, position: int|
                #![trigger parts[i], node.pulled_byte(imported, extents, start + position)]
                0 <= i < parts.len() && holds(parts[i], position) ==> part_byte(
                    node.arena,
                    imported,
                    parts[i],
                    position - parts[i].start(),
                ) == node.pulled_byte(imported, extents, start + position)
        }),
    decreases extents.len(),
{
    if extents.len() > 0 {
        let rest = extents.drop_last();
        let extent = extents.last();
        lemma_plan_bytes(node, read_scope_id, rest, sets, start, end, imported);
        lemma_plan(node, read_scope_id, rest, sets, start, end);
        lemma_plan(node, read_scope_id, extents, sets, start, end);
        let (parts, _) = node.planned(read_scope_id, extents, sets, start, end)->Ok_0;
        let (early_parts, _) = node.planned(read_scope_id, rest, sets, start, end)->Ok_0;
        assert(run_end(0, rest) == Ok::<int, WorkerError>(extent.start()));
        assert forall|i: int, position: int|
            #![trigger parts[i], node.pulled_byte(imported, extents, start + position)]
            0 <= i < parts.len() && holds(parts[i], position) implies part_byte(
            node.arena,
            imported,
            parts[i],
            position - parts[i].start(),
        ) == node.pulled_byte(imported, extents, start + position) by {
            if i < early_parts.len() {
                assert(parts[i] == early_parts[i]);
                lemma_reaches_prefix(
                    early_parts,
                    reached(start, end, extent.start()),
                    i,
                );
                assert(node.pulled_byte(imported, rest, start + position) == node.pulled_byte(
                    imported,
                    extents,
                    start + position,
                ));
            } else {
                assert(parts.last() == parts[i]);
                assert(readable(node.arena, parts[i]));
                if parts[i] is Block {
                    assert(node.arena.block_wf(extent.block_id));
                }
            }
        }
    }
}

/// A read into a buffer that had to wait for blocks ends with the bytes of the value in the
/// buffer, whichever of its blocks were here and whichever were pulled, and leaves the rest of the
/// buffer as it was.
pub proof fn a_read_completed_by_pulls_holds_the_bytes_of_the_value(
    node: NodeView,
    read_scope_id: u64,
    extents: Seq<ExtentView>,
    sets: Seq<crate::protocol::ReplicaSetView>,
    start: int,
    end: int,
    output: Seq<u8>,
    imported: Map<Seq<u8>, Seq<u8>>,
)
    requires
        node.arena.wf(),
        run_end(0, extents) is Ok,
        0 <= start <= end <= run_end(0, extents)->Ok_0,
        node.planned(read_scope_id, extents, sets, start, end) is Ok,
        end - start <= output.len() <= usize::MAX,
        forall|i: int|
            #![trigger node.planned(read_scope_id, extents, sets, start, end)->Ok_0.0[i]]
            0 <= i < node.planned(read_scope_id, extents, sets, start, end)->Ok_0.0.len()
                ==> suffices(
                imported,
                node.planned(read_scope_id, extents, sets, start, end)->Ok_0.0[i],
            ),
    ensures
        ({
            let parts = node.planned(read_scope_id, extents, sets, start, end)->Ok_0.0;
            let (after, complete) = imported_into(
                remote_of(parts),
                imported,
                filled(node.arena, parts, output),
            );
            &&& complete == Ok::<bool, WorkerError>(true)
            &&& after.len() == output.len()
            &&& forall|position: int|
                #![trigger after[position]]
                0 <= position < end - start ==> after[position] == node.pulled_byte(
                    imported,
                    extents,
                    start + position,
                )
            &&& forall|position: int|
                #![trigger after[position]]
                end - start <= position < output.len() ==> after[position] == output[position]
        }),
{
    let parts = node.planned(read_scope_id, extents, sets, start, end)->Ok_0.0;
    let length = end - start;
    if extents.len() > 0 {
        crate::version_layout::lemma_run_prefix(0, extents, extents.len() - 1);
    }
    lemma_plan(node, read_scope_id, extents, sets, start, end);
    assert(reached(start, end, run_end(0, extents)->Ok_0) == length);
    lemma_plan_bytes(node, read_scope_id, extents, sets, start, end, imported);
    lemma_filled(node.arena, imported, parts, output, length);
    let middle = filled(node.arena, parts, output);
    lemma_imported(node.arena, imported, parts, middle, length);
    let (after, _) = imported_into(remote_of(parts), imported, middle);
    assert forall|position: int| #![trigger after[position]] 0 <= position < end - start implies after[position]
        == node.pulled_byte(imported, extents, start + position) by {
        let at = lemma_part_at(parts, length, position);
        assert(holds(parts[at], position));
        assert(middle[position] == middle[position]);
    }
}

/// A read into a buffer that found all its blocks holds the bytes of the value, and leaves the
/// rest of the buffer as it was.
pub proof fn a_read_into_a_buffer_holds_the_bytes_of_the_value(
    node: NodeView,
    read_scope_id: u64,
    resolved: ResolvedView,
    range: Option<(u64, u64)>,
    clamp: bool,
    output: Seq<u8>,
    refill: Option<RefillView>,
    prefetch: bool,
    now: u64,
)
    requires
        node.arena.wf(),
        node.materialized_into(
            read_scope_id,
            resolved,
            range,
            clamp,
            output,
            refill,
            prefetch,
            now,
        ).1 matches Ok(IntoView::Ready(_)),
    ensures
        ({
            let result = node.materialized_into(
                read_scope_id,
                resolved,
                range,
                clamp,
                output,
                refill,
                prefetch,
                now,
            ).1->Ok_0->Ready_0;
            let layout = resolved.layout->0;
            let (start, length) = read_range(range, layout.logical_length, clamp)->Ok_0;
            &&& result.bytes_read == length
            &&& result.bytes == content(
                node.arena,
                layout.extents,
                start as int,
                start + length,
            ) + output.skip(length as int)
        }),
{
    let layout = resolved.layout->0;
    let (start, length) = read_range(range, layout.logical_length, clamp)->Ok_0;
    let (parts, missing) = node.planned(
        read_scope_id,
        layout.extents,
        resolved.block_replicas,
        start as int,
        start + length,
    )->Ok_0;
    lemma_plan(
        node,
        read_scope_id,
        layout.extents,
        resolved.block_replicas,
        start as int,
        start + length,
    );
    lemma_gathered(node.arena, parts, output, length as int);
    assert(reached(start as int, start + length, layout.logical_length as int) == length);
}

/// A read into a buffer puts the value's bytes in the range that it asked for at the buffer's
/// start: from the first to the last where it asked for no range, from the range's start to its end
/// where the value reaches so far, and to the value's end where the range was to be clamped. A
/// range that was not to be clamped is never cut short. A buffer that is too small learns how many
/// bytes it would take.
pub proof fn a_read_into_a_buffer_gives_the_bytes_that_were_asked_for(
    node: NodeView,
    read_scope_id: u64,
    resolved: ResolvedView,
    range: Option<(u64, u64)>,
    clamp: bool,
    output: Seq<u8>,
    refill: Option<RefillView>,
    prefetch: bool,
    now: u64,
)
    requires
        node.arena.wf(),
    ensures
        ({
            let outcome = node.materialized_into(
                read_scope_id,
                resolved,
                range,
                clamp,
                output,
                refill,
                prefetch,
                now,
            ).1;
            let layout = resolved.layout->0;
            let value: int = layout.logical_length as int;
            let (from, asked): (int, int) = match range {
                Some((offset, length)) => (offset as int, length as int),
                None => (0, value),
            };
            let wanted: int = if range is None {
                value
            } else if from + asked <= value {
                asked
            } else if from <= value {
                value - from
            } else {
                0
            };
            &&& resolved.layout is None <==> outcome == Ok::<IntoView, WorkerError>(
                IntoView::NotFound,
            )
            &&& outcome is Ok && range is Some && !clamp && resolved.layout is Some ==> from
                + asked <= value
            &&& outcome matches Ok(IntoView::BufferTooSmall { version, required }) ==> version
                == layout.version && required == wanted && wanted > output.len()
            &&& outcome matches Ok(IntoView::NeedsRemoteBlocks(partial)) ==> partial.version
                == layout.version && partial.logical_length == value && partial.bytes_read
                == wanted && wanted <= output.len()
            &&& outcome matches Ok(IntoView::Ready(result)) ==> {
                &&& result.version == layout.version
                &&& result.logical_length == layout.logical_length
                &&& result.bytes_read == wanted
                &&& result.bytes.len() == output.len()
                &&& wanted <= output.len()
                &&& forall|i: int|
                    #![trigger result.bytes[i]]
                    0 <= i < wanted ==> result.bytes[i] == byte_at(
                        node.arena,
                        layout.extents,
                        from + i,
                    )
                &&& forall|i: int|
                    #![trigger result.bytes[i]]
                    wanted <= i < output.len() ==> result.bytes[i] == output[i]
            }
        }),
{
    let outcome = node.materialized_into(
        read_scope_id,
        resolved,
        range,
        clamp,
        output,
        refill,
        prefetch,
        now,
    ).1;
    if outcome matches Ok(IntoView::Ready(_)) {
        a_read_into_a_buffer_holds_the_bytes_of_the_value(
            node,
            read_scope_id,
            resolved,
            range,
            clamp,
            output,
            refill,
            prefetch,
            now,
        );
    }
}

/// A read into a buffer that is large enough, of a valid layout and of a range that lies inside the value,
/// succeeds at once if it finds all that it needs here.
pub proof fn a_read_into_a_buffer_of_what_is_here_succeeds(
    node: NodeView,
    read_scope_id: u64,
    resolved: ResolvedView,
    offset: u64,
    length: u64,
    clamp: bool,
    output: Seq<u8>,
    refill: Option<RefillView>,
    prefetch: bool,
    now: u64,
)
    requires
        resolved.layout is Some,
        layout_fault(resolved.layout->0.logical_length, resolved.layout->0.extents) is None,
        offset + length <= resolved.layout->0.logical_length,
        length <= output.len() <= usize::MAX,
        forall|i: int|
            #![trigger resolved.layout->0.extents[i]]
            0 <= i < resolved.layout->0.extents.len() && crate::read_plan::is_read(
                resolved.layout->0.extents[i],
                offset as int,
                offset + length,
            ) ==> crate::read_plan::is_here(node, read_scope_id, resolved.layout->0.extents[i]),
    ensures
        node.materialized_into(
            read_scope_id,
            resolved,
            Some((offset, length)),
            clamp,
            output,
            refill,
            prefetch,
            now,
        ).1 matches Ok(IntoView::Ready(_)),
{
    crate::read_plan::a_read_of_what_is_here_lacks_nothing(
        node,
        read_scope_id,
        resolved.layout->0.extents,
        resolved.block_replicas,
        offset as int,
        offset + length,
    );
}

/// An answer that may be remembered is remembered: while the node is informed and none of the value's
/// blocks is being retired, an answer that was asked for in the cache's generation, with a lease of
/// this node for its own version that is not over, is there afterwards, if nothing newer is and there
/// is room. A read into a buffer that succeeds leaves its answer there.
pub proof fn an_answer_that_may_be_remembered_is(
    node: NodeView,
    refill: RefillView,
    resolved: ResolvedView,
    now: u64,
    read_scope_id: u64,
    range: Option<(u64, u64)>,
    clamp: bool,
    output: Seq<u8>,
    prefetch: bool,
)
    requires
        node.metadata_watch_connected,
        now < node.metadata_lease_until,
        resolved.layout is Some,
        resolved.current_lease is Some,
        refill.requested_at + resolved.current_lease->0.ttl_millis * 1_000_000 <= u64::MAX,
        node.cache.generation == refill.token,
        refill.token < u64::MAX,
        resolved.current_lease->0.version == resolved.layout->0.version,
        resolved.current_lease->0.lease_epoch == refill.node_epoch,
        now < refill.requested_at + resolved.current_lease->0.ttl_millis * 1_000_000,
        now < refill.requested_at + node.cache.ttl,
        !(node.cache.entries.contains_key(refill.key)
            && node.cache.entries[refill.key].layout.version > resolved.layout->0.version),
        crate::table::total(
            node.cache.entries.remove(refill.key),
            crate::current_cache::entry_weight(),
        ) + crate::current_cache::charge_of(refill.key, resolved.layout->0.extents)
            <= node.cache.budget,
        forall|i: int|
            #![trigger resolved.layout->0.extents[i]]
            0 <= i < resolved.layout->0.extents.len() ==> !node.retirements.retiring.contains(
                resolved.layout->0.extents[i].block_id,
            ),
    ensures
        ({
            let next = node.refilled(Some(refill), resolved, now);
            &&& next.cache.entries.contains_key(refill.key)
            &&& next.cache.entries[refill.key].layout == resolved.layout->0
            &&& next.cache.fresh(refill.key, refill.node_epoch, now)
        }),
        ({
            let (next, outcome) = node.materialized_into(
                read_scope_id,
                resolved,
                range,
                clamp,
                output,
                Some(refill),
                prefetch,
                now,
            );
            outcome matches Ok(IntoView::Ready(_)) ==> next.cache.entries.contains_key(refill.key)
                && next.cache.entries[refill.key].layout == resolved.layout->0
        }),
{
    crate::current_cache::an_answer_is_cached_as_it_came_until_its_lease_ends(
        node.cache,
        refill.token,
        refill.key,
        resolved,
        refill.requested_at,
        refill.node_epoch,
        now,
        now,
        refill.key,
    );
}

/// An answer is offered to the cache only by a read that may fill it, while the metadata service keeps
/// the node informed, and if no block of the value is being retired; otherwise nothing changes. What
/// comes into the cache is what was resolved. Nothing but the cache changes.
pub proof fn only_a_current_answer_is_remembered(
    node: NodeView,
    refill: Option<RefillView>,
    resolved: ResolvedView,
    now: u64,
    key: Seq<u8>,
    extent: int,
)
    ensures
        ({
            let next = node.refilled(refill, resolved, now);
            &&& next.sessions == node.sessions
            &&& next.arena == node.arena
            &&& next.cache.generation == node.cache.generation
            &&& next.cache != node.cache ==> {
                &&& refill is Some
                &&& node.metadata_watch_connected && now < node.metadata_lease_until
                &&& refill->0.token == node.cache.generation
                &&& resolved.layout is Some
                &&& 0 <= extent < resolved.layout->0.extents.len()
                    ==> !node.retirements.retiring.contains(
                    resolved.layout->0.extents[extent].block_id,
                )
                &&& next.cache.entries.contains_key(refill->0.key)
                &&& next.cache.entries[refill->0.key].layout == resolved.layout->0
                &&& next.cache.entries[refill->0.key].block_replicas == resolved.block_replicas
                &&& next.cache.entries[refill->0.key].node_epoch == refill->0.node_epoch
            }
            &&& key != refill->0.key || refill is None ==> next.cache.entries.contains_key(key)
                == node.cache.entries.contains_key(key) && next.cache.entries[key]
                == node.cache.entries[key]
        }),
{
}

/// Where every part is here, a filled buffer starts with their bytes, one after the other.
proof fn lemma_gathered(arena: ArenaView, parts: Seq<PartView>, output: Seq<u8>, length: int)
    requires
        reaches(parts, length),
        length <= output.len(),
        forall|i: int|
            #![trigger parts[i]]
            0 <= i < parts.len() ==> readable(arena, parts[i]) && is_local(parts[i]),
    ensures
        gathered(arena, parts).len() == length,
        filled(arena, parts, output) == gathered(arena, parts) + output.skip(length),
    decreases parts.len(),
{
    if parts.len() > 0 {
        let rest = parts.drop_last();
        let part = parts.last();
        lemma_reaches_prefix(parts, length, parts.len() - 1);
        assert forall|i: int| #![trigger rest[i]] 0 <= i < rest.len() implies readable(
            arena,
            rest[i],
        ) && is_local(rest[i]) by {
            assert(rest[i] == parts[i]);
        }
        lemma_gathered(arena, rest, output, part.start());
        assert(readable(arena, parts[parts.len() - 1]) && is_local(parts[parts.len() - 1]));
        assert(filled(arena, parts, output) =~= gathered(arena, parts) + output.skip(length));
    } else {
        assert(output.skip(0) =~= output);
    }
}


/// Writes bytes into a buffer.
fn place(output: &mut Vec<u8>, at: usize, bytes: &[u8], from: usize, count: usize)
    requires
        at + count <= old(output)@.len(),
        from + count <= bytes@.len(),
    ensures
        final(output)@ == placed(
            old(output)@,
            at as int,
            bytes@.subrange(from as int, from + count),
        ),
{
    let ghost before = output@;
    let ghost piece = bytes@.subrange(from as int, from + count);
    let room: usize = output.len();
    let given: usize = bytes.len();
    let mut i: usize = 0;
    while i < count
        invariant
            i <= count,
            at + count <= before.len(),
            before.len() == room,
            bytes@.len() == given,
            from + count <= bytes@.len(),
            piece == bytes@.subrange(from as int, from + count),
            output@.len() == before.len(),
            forall|j: int| at <= j < at + i ==> output@[j] == piece[j - at],
            forall|j: int|
                0 <= j < before.len() && !(at <= j < at + i) ==> output@[j] == before[j],
        decreases count - i,
    {
        output.set(at + i, bytes[from + i]);
        i = i + 1;
    }
    assert(output@ =~= placed(before, at as int, piece));
}

/// Writes zeros into a buffer.
fn place_zeros(output: &mut Vec<u8>, at: usize, count: usize)
    requires
        at + count <= old(output)@.len(),
    ensures
        final(output)@ == placed(old(output)@, at as int, Seq::new(count as nat, |i: int| 0u8)),
{
    let ghost before = output@;
    let room: usize = output.len();
    let mut i: usize = 0;
    while i < count
        invariant
            i <= count,
            at + count <= before.len(),
            before.len() == room,
            output@.len() == before.len(),
            forall|j: int| at <= j < at + i ==> output@[j] == 0,
            forall|j: int|
                0 <= j < before.len() && !(at <= j < at + i) ==> output@[j] == before[j],
        decreases count - i,
    {
        output.set(at + i, 0);
        i = i + 1;
    }
    assert(output@ =~= placed(before, at as int, Seq::new(count as nat, |i: int| 0u8)));
}

/// Fills what a buffer lacks from pulled blocks, and says whether all of it could be filled. The
/// first part whose block was not pulled, or that does not fit, ends it.
pub fn fill_imported_parts(
    output: &mut Vec<u8>,
    parts: &Vec<RemoteReadPart>,
    imported: &Table<Vec<u8>, Payload>,
) -> (complete: Result<bool, WorkerError>)
    ensures
        (final(output)@, complete) == imported_into(views(parts@), imported@, old(output)@),
{
    let ghost before = output@;
    let ghost all = views(parts@);
    let mut i: usize = 0;
    assert(all.take(0) =~= Seq::empty());
    while i < parts.len()
        invariant
            i <= parts@.len(),
            before == old(output)@,
            all == views(parts@),
            imported_into(all.take(i as int), imported@, before) == (output@, Ok::<
                bool,
                WorkerError,
            >(true)),
        decreases parts.len() - i,
    {
        let part: &RemoteReadPart = &parts[i];
        proof {
            lemma_views_take(parts@, i as int);
            if imported_into(all.take(i + 1), imported@, before).1 != Ok::<bool, WorkerError>(
                true,
            ) {
                lemma_incomplete_stays(all, imported@, before, i + 1);
            }
        }
        let bytes: &Payload = match imported.get(&part.block_id) {
            Some(bytes) => bytes,
            None => return Ok(false),
        };
        let source_end: u64 = match part.block_offset.checked_add(part.length) {
            Some(end) => end,
            None => return Err(WorkerError::ResourceExhausted),
        };
        let target_end: u64 = match part.logical_offset.checked_add(part.length) {
            Some(end) => end,
            None => return Err(WorkerError::ResourceExhausted),
        };
        if source_end > usize::MAX as u64 || target_end > usize::MAX as u64 {
            return Err(WorkerError::ResourceExhausted);
        }
        let source: &[u8] = bytes.as_slice();
        if source_end as usize > source.len() || target_end as usize > output.len() {
            return Err(WorkerError::Conflict);
        }
        place(
            output,
            part.logical_offset as usize,
            source,
            part.block_offset as usize,
            part.length as usize,
        );
        i = i + 1;
    }
    assert(all.take(i as int) =~= all);
    Ok(true)
}

proof fn lemma_incomplete_stays(
    parts: Seq<PartView>,
    imported: Map<Seq<u8>, Seq<u8>>,
    output: Seq<u8>,
    n: int,
)
    requires
        0 <= n <= parts.len(),
        imported_into(parts.take(n), imported, output).1 != Ok::<bool, WorkerError>(true),
    ensures
        imported_into(parts, imported, output) == imported_into(parts.take(n), imported, output),
    decreases parts.len() - n,
{
    if n < parts.len() {
        assert(parts.take(n + 1).drop_last() =~= parts.take(n));
        lemma_incomplete_stays(parts, imported, output, n + 1);
    } else {
        assert(parts.take(n) =~= parts);
    }
}

/// The names of some missing blocks.
fn list_names(specs: &Vec<PeerPullSpec>) -> (names: Vec<Vec<u8>>)
    ensures
        views(names@) == names_of(views(specs@)),
{
    let ghost all = views(specs@);
    let mut names: Vec<Vec<u8>> = Vec::with_capacity(specs.len());
    let mut i: usize = 0;
    while i < specs.len()
        invariant
            i <= specs@.len(),
            all == views(specs@),
            views(names@) =~= names_of(all.take(i as int)),
        decreases specs.len() - i,
    {
        let ghost so_far = names@;
        names.push(copy_bytes(&specs[i].block_id));
        proof {
            lemma_views_push(so_far, names@.last());
            lemma_views_take(specs@, i as int);
        }
        i = i + 1;
    }
    assert(all.take(i as int) =~= all);
    names
}

impl NodeState {
    /// Whether a block of a layout is being retired.
    pub fn layout_contains_retiring_block(&self, resolved: &ResolveObjectResponse) -> (found: bool)
        ensures
            found == self@.retires(resolved@),
    {
        let layout = match &resolved.layout {
            Some(layout) => layout,
            None => return false,
        };
        let ghost extents = layout@.extents;
        let mut i: usize = 0;
        while i < layout.extents.len()
            invariant
                i <= layout.extents@.len(),
                extents == views(layout.extents@),
                resolved@.layout matches Some(layout) && layout.extents == extents,
                forall|j: int|
                    #![trigger extents[j]]
                    0 <= j < i ==> !self@.retirements.retiring.contains(extents[j].block_id),
            decreases layout.extents.len() - i,
        {
            if self.retirements.retiring.contains(&layout.extents[i].block_id) {
                assert(self@.retirements.retiring.contains(
                    resolved@.layout->0.extents[i as int].block_id,
                ));
                return true;
            }
            i = i + 1;
        }
        false
    }

    /// Offers an answer to the cache.
    pub fn refill_cache(
        &mut self,
        refill: Option<CacheRefill>,
        resolved: &ResolveObjectResponse,
        now: u64,
    )
        requires
            old(self)@.wf(),
        ensures
            final(self)@.wf(),
            final(self)@ == old(self)@.refilled(view_of(refill), resolved@, now),
    {
        if !self.metadata_watch_connected || now >= self.metadata_lease_until
            || self.layout_contains_retiring_block(resolved) {
            return;
        }
        if let Some(refill) = refill {
            self.current_cache.insert(
                refill.token,
                refill.key,
                resolved,
                refill.requested_at,
                refill.node_epoch,
                now,
            );
        }
    }

    /// Writes the parts that are here into a buffer, and returns the others.
    fn fill(&self, parts: &Vec<DataCorePlannedReadPart>, output: &mut Vec<u8>) -> (remote: Vec<
        RemoteReadPart,
    >)
        requires
            exists|length: int|
                0 <= length <= old(output)@.len() && #[trigger] reaches(views(parts@), length),
            forall|i: int|
                #![trigger views(parts@)[i]]
                0 <= i < parts@.len() ==> readable(self@.arena, views(parts@)[i]),
        ensures
            final(output)@ == filled(self@.arena, views(parts@), old(output)@),
            final(output)@.len() == old(output)@.len(),
            views(remote@) == remote_of(views(parts@)),
    {
        let ghost before = output@;
        let ghost all = views(parts@);
        let ghost length = choose|length: int|
            0 <= length <= before.len() && #[trigger] reaches(all, length);
        let mut remote: Vec<RemoteReadPart> = Vec::new();
        let room: usize = output.len();
        let mut i: usize = 0;
        assert(all.take(0) =~= Seq::empty());
        proof {
            reveal(Seq::filter);
            assert(views(remote@) =~= remote_of(all.take(0)));
        }
        while i < parts.len()
            invariant
                i <= parts@.len(),
                all == views(parts@),
                reaches(all, length),
                length <= before.len(),
                output@.len() == before.len(),
                before.len() == room,
                forall|j: int|
                    #![trigger all[j]]
                    0 <= j < all.len() ==> readable(self@.arena, all[j]),
                output@ == filled(self@.arena, all.take(i as int), before),
                views(remote@) == remote_of(all.take(i as int)),
            decreases parts.len() - i,
        {
            let ghost so_far = remote@;
            proof {
                lemma_views_take(parts@, i as int);
                lemma_reaches_prefix(all, length, i as int);
                assert(readable(self@.arena, all[i as int]));
                reveal(Seq::filter);
            }
            match &parts[i] {
                DataCorePlannedReadPart::Zero { logical_offset, length: count } => {
                    place_zeros(output, *logical_offset as usize, *count as usize);
                    proof {
                        assert(remote_of(all.take(i + 1)) =~= remote_of(all.take(i as int)));
                    }
                },
                DataCorePlannedReadPart::Block { logical_offset, read } => {
                    let written = self.arena.read_ticket_into(
                        *read,
                        output,
                        *logical_offset as usize,
                    );
                    assert(written is Ok);
                    proof {
                        assert(remote_of(all.take(i + 1)) =~= remote_of(all.take(i as int)));
                    }
                },
                DataCorePlannedReadPart::Remote { logical_offset, block_id, block_offset, length } => {
                    remote.push(
                        RemoteReadPart {
                            logical_offset: *logical_offset,
                            block_id: copy_bytes(block_id),
                            block_offset: *block_offset,
                            length: *length,
                        },
                    );
                    proof {
                        lemma_views_push(so_far, remote@.last());
                        assert(remote_of(all.take(i + 1)) =~= remote_of(all.take(i as int)).push(
                            all[i as int],
                        ));
                    }
                },
            }
            i = i + 1;
        }
        assert(all.take(i as int) =~= all);
        remote
    }

    /// Reads a resolved value into a buffer. Bytes of blocks that are missing are left out, and
    /// the blocks to pull for them are returned with the buffer.
    pub fn materialize_resolved_into_for_data_core(
        &mut self,
        read_scope_id: u64,
        resolved: &ResolveObjectResponse,
        range: Option<(u64, u64)>,
        clamp_range: bool,
        output: Vec<u8>,
        cache_refill: Option<CacheRefill>,
        prefetch_full_layout: bool,
        now: u64,
    ) -> (outcome: Result<DataCoreMaterializeOutcome, WorkerError>)
        requires
            old(self)@.wf(),
        ensures
            final(self)@.wf(),
            ({
                let (next, result) = old(self)@.materialized_into(
                    read_scope_id,
                    resolved@,
                    range,
                    clamp_range,
                    output@,
                    view_of(cache_refill),
                    prefetch_full_layout,
                    now,
                );
                &&& final(self)@ == next
                &&& match outcome {
                    Ok(outcome) => result == Ok::<IntoView, WorkerError>(outcome@),
                    Err(error) => result == Err::<IntoView, WorkerError>(error),
                }
            }),
    {
        let ghost before = self@;
        let layout = match &resolved.layout {
            Some(layout) => layout,
            None => return Ok(DataCoreMaterializeOutcome::NotFound),
        };
        match validate(layout.logical_length, &layout.extents) {
            Ok(_) => {},
            Err(error) => return Err(error),
        }
        let (start, length): (u64, u64) = match normalize_read_range(
            range,
            layout.logical_length,
            clamp_range,
        ) {
            Ok(fixed) => fixed,
            Err(error) => return Err(error),
        };
        if length > usize::MAX as u64 {
            return Err(WorkerError::ResourceExhausted);
        }
        let required: usize = length as usize;
        let mut output: Vec<u8> = output;
        if required > output.len() {
            return Ok(
                DataCoreMaterializeOutcome::BufferTooSmall { version: layout.version, required },
            );
        }
        let (parts, missing) = match self.plan_read(
            read_scope_id,
            &layout.extents,
            &resolved.block_replicas,
            start,
            start + length,
        ) {
            Ok(plan) => plan,
            Err(error) => return Err(error),
        };
        proof {
            lemma_plan(
                before,
                read_scope_id,
                layout@.extents,
                resolved@.block_replicas,
                start as int,
                start + length,
            );
            assert(reaches(views(parts@), length as int));
        }
        let remote_parts: Vec<RemoteReadPart> = self.fill(&parts, &mut output);
        if missing.len() > 0 {
            let required_blocks: Vec<Vec<u8>> = list_names(&missing);
            let specs: Vec<PeerPullSpec> = if prefetch_full_layout {
                self.expand_filesystem_peer_prefetch(
                    read_scope_id,
                    layout,
                    &resolved.block_replicas,
                    (start, length),
                    missing,
                )
            } else {
                missing
            };
            return Ok(
                DataCoreMaterializeOutcome::NeedsRemoteBlocks(
                    PartialRead {
                        specs,
                        required_blocks,
                        remote_parts,
                        version: layout.version,
                        logical_length: layout.logical_length,
                        bytes_read: required,
                        output,
                    },
                ),
            );
        }
        self.refill_cache(cache_refill, resolved, now);
        Ok(
            DataCoreMaterializeOutcome::Ready(
                DataCoreReadIntoResult {
                    version: layout.version,
                    logical_length: layout.logical_length,
                    bytes: output,
                    bytes_read: required,
                },
            ),
        )
    }
}

} // verus!
