//! The layout of an immutable value: ordered extents that map its logical bytes to slices of
//! immutable blocks, or to holes, which read as zeros and have no block.
use crate::bytes::{append_bytes, be_bytes, copy_bytes};
#[allow(unused_imports)]
use crate::bytes::{be_bytes_of, lemma_views_push, lemma_views_take, views};
use crate::digest::digest as digest_bytes;
#[allow(unused_imports)]
use crate::digest::sha256_of;
use crate::error::WorkerError;
use vstd::prelude::*;

verus! {

/// The kind of an extent that does not say its kind. It holds data.
pub const EXTENT_KIND_UNSPECIFIED: i32 = 0;

/// The kind of an extent that holds data.
pub const EXTENT_KIND_DATA: i32 = 1;

/// The kind of an extent that is a hole.
pub const EXTENT_KIND_HOLE: i32 = 2;

/// A range of logical bytes.
#[derive(Clone, Copy, Debug, PartialEq, Eq, Structural)]
pub struct ByteRange {
    pub offset: u64,
    pub length: u64,
}

/// One piece of a layout.
#[derive(Debug, PartialEq, Eq)]
pub struct ExtentRecord {
    pub logical: Option<ByteRange>,
    pub block_id: Vec<u8>,
    pub block_offset: u64,
    pub digest: Vec<u8>,
    pub kind: i32,
}

/// One piece of a layout, as a value.
#[verifier::ext_equal]
pub struct ExtentView {
    pub logical: Option<ByteRange>,
    pub block_id: Seq<u8>,
    pub block_offset: u64,
    pub digest: Seq<u8>,
    pub kind: i32,
}

impl View for ExtentRecord {
    type V = ExtentView;

    open spec fn view(&self) -> ExtentView {
        ExtentView {
            logical: self.logical,
            block_id: self.block_id@,
            block_offset: self.block_offset,
            digest: self.digest@,
            kind: self.kind,
        }
    }
}

/// Where a logical byte comes from.
pub enum Source {
    /// It is zero and stands in no block.
    Hole,
    /// It is the byte at `offset` of the block.
    Block { block_id: Seq<u8>, offset: int, digest: Seq<u8> },
}

impl ExtentView {
    /// Whether the extent is a hole.
    pub open spec fn is_hole(self) -> bool {
        self.kind == EXTENT_KIND_HOLE
    }

    /// The first logical byte.
    pub open spec fn start(self) -> int {
        self.logical->0.offset as int
    }

    /// The number of logical bytes.
    pub open spec fn length(self) -> int {
        self.logical->0.length as int
    }

    /// The logical byte after the last.
    pub open spec fn end(self) -> int {
        self.start() + self.length()
    }

    /// Where the logical byte at `position`, which the extent holds, comes from.
    pub open spec fn source(self, position: int) -> Source {
        if self.is_hole() {
            Source::Hole
        } else {
            Source::Block {
                block_id: self.block_id,
                offset: self.block_offset + (position - self.start()),
                digest: self.digest,
            }
        }
    }
}

/// A hole.
pub open spec fn hole_view(offset: u64, length: u64) -> ExtentView {
    ExtentView {
        logical: Some(ByteRange { offset, length }),
        block_id: Seq::empty(),
        block_offset: 0,
        digest: Seq::empty(),
        kind: EXTENT_KIND_HOLE,
    }
}

/// A slice of a block.
pub open spec fn data_view(
    offset: u64,
    length: u64,
    block_id: Seq<u8>,
    block_offset: u64,
    digest: Seq<u8>,
) -> ExtentView {
    ExtentView {
        logical: Some(ByteRange { offset, length }),
        block_id,
        block_offset,
        digest,
        kind: EXTENT_KIND_DATA,
    }
}

/// The end of an extent that is to start at `cursor`, or what is wrong with it.
pub open spec fn place(cursor: int, extent: ExtentView) -> Result<int, WorkerError> {
    if extent.logical is None {
        Err(WorkerError::InvalidArgument("extent logical range is missing"))
    } else if extent.length() == 0 || extent.start() != cursor {
        Err(WorkerError::InvalidArgument("version layout contains a gap, overlap, or empty extent"))
    } else if cursor + extent.length() > u64::MAX {
        Err(WorkerError::InvalidArgument("extent range overflows u64"))
    } else if extent.is_hole() {
        if extent.block_offset != 0 {
            Err(WorkerError::InvalidArgument("sparse hole must not point into a block"))
        } else if extent.block_id.len() != 0 || extent.digest.len() != 0 {
            Err(WorkerError::InvalidArgument("sparse hole must not carry block identity or digest"))
        } else {
            Ok(cursor + extent.length())
        }
    } else if extent.kind != EXTENT_KIND_UNSPECIFIED && extent.kind != EXTENT_KIND_DATA {
        Err(WorkerError::InvalidArgument("unknown extent kind"))
    } else if extent.block_id.len() == 0 {
        Err(WorkerError::InvalidArgument("data extent requires a block identity"))
    } else if extent.block_offset + extent.length() > u64::MAX {
        Err(WorkerError::InvalidArgument("block range overflows u64"))
    } else {
        Ok(cursor + extent.length())
    }
}

/// The end of extents that are to follow each other from `start`, or what is wrong with the
/// first that does not.
pub open spec fn run_end(start: int, extents: Seq<ExtentView>) -> Result<int, WorkerError>
    decreases extents.len(),
{
    if extents.len() == 0 {
        Ok(start)
    } else {
        match run_end(start, extents.drop_last()) {
            Ok(cursor) => place(cursor, extents.last()),
            Err(error) => Err(error),
        }
    }
}

/// What is wrong with a layout.
pub open spec fn layout_fault(logical_length: u64, extents: Seq<ExtentView>) -> Option<WorkerError> {
    match run_end(0, extents) {
        Err(error) => Some(error),
        Ok(end) => if end != logical_length {
            Some(WorkerError::InvalidArgument("version layout does not cover its logical length"))
        } else {
            None
        },
    }
}

/// Whether the extents cover the logical bytes, each once and in order.
pub open spec fn layout_valid(logical_length: u64, extents: Seq<ExtentView>) -> bool {
    layout_fault(logical_length, extents) is None
}

/// Where the logical byte at `position` comes from, if an extent holds it.
pub open spec fn source_at(extents: Seq<ExtentView>, position: int) -> Option<Source>
    decreases extents.len(),
{
    if extents.len() == 0 {
        None
    } else if extents.last().start() <= position < extents.last().end() {
        Some(extents.last().source(position))
    } else {
        source_at(extents.drop_last(), position)
    }
}

/// The part of an extent from `offset`, of the given length, `delta` bytes into it.
pub open spec fn slice_of(extent: ExtentView, offset: u64, length: u64, delta: u64) -> ExtentView {
    if extent.is_hole() {
        hole_view(offset, length)
    } else {
        data_view(
            offset,
            length,
            extent.block_id,
            (extent.block_offset + delta) as u64,
            extent.digest,
        )
    }
}

/// What of an extent stands before `cut`. With `remake`, it is built anew even where all of it
/// stands there, so that it says its kind.
pub open spec fn clip_end(extent: ExtentView, cut: u64, remake: bool) -> ExtentView {
    if extent.end() <= cut {
        if remake {
            slice_of(extent, extent.start() as u64, extent.length() as u64, 0)
        } else {
            extent
        }
    } else {
        slice_of(extent, extent.start() as u64, (cut - extent.start()) as u64, 0)
    }
}

/// What of an extent stands at `cut` or behind it.
pub open spec fn clip_start(extent: ExtentView, cut: u64) -> ExtentView {
    if extent.start() >= cut {
        extent
    } else {
        slice_of(extent, cut, (extent.end() - cut) as u64, (cut - extent.start()) as u64)
    }
}

/// The part of a layout before `cut`.
pub open spec fn before(extents: Seq<ExtentView>, cut: u64, remake: bool) -> Seq<ExtentView> {
    extents.filter(|extent: ExtentView| extent.start() < cut).map_values(
        |extent: ExtentView| clip_end(extent, cut, remake),
    )
}

/// The part of a layout at `cut` and behind it.
pub open spec fn after(extents: Seq<ExtentView>, cut: u64) -> Seq<ExtentView> {
    extents.filter(|extent: ExtentView| extent.end() > cut).map_values(
        |extent: ExtentView| clip_start(extent, cut),
    )
}

/// Whether the second extent continues the hole that the first one is.
pub open spec fn continues_hole(first: ExtentView, second: ExtentView) -> bool {
    first.is_hole() && second.is_hole() && first.end() == second.start()
}

/// Two adjacent holes as one.
pub open spec fn merged(first: ExtentView, second: ExtentView) -> ExtentView {
    ExtentView {
        logical: Some(
            ByteRange {
                offset: first.logical->0.offset,
                length: (first.length() + second.length()) as u64,
            },
        ),
        ..first
    }
}

/// The extents with adjacent holes joined.
pub open spec fn compacted(extents: Seq<ExtentView>) -> Seq<ExtentView>
    decreases extents.len(),
{
    if extents.len() == 0 {
        extents
    } else {
        let shorter = compacted(extents.drop_last());
        let extent = extents.last();
        if shorter.len() > 0 && continues_hole(shorter.last(), extent) {
            shorter.drop_last().push(merged(shorter.last(), extent))
        } else {
            shorter.push(extent)
        }
    }
}

/// The pieces of a layout after a write, before adjacent holes are joined: what stands before
/// the patch, a hole from the old end to the patch where there is a gap, the patch, and what
/// stands behind it.
pub open spec fn overlaid_pieces(
    base: Seq<ExtentView>,
    base_length: u64,
    patch_start: u64,
    patch_length: u64,
    patch_block: Seq<u8>,
    patch_digest: Seq<u8>,
) -> Seq<ExtentView> {
    let gap = if patch_start > base_length {
        seq![hole_view(base_length, (patch_start - base_length) as u64)]
    } else {
        Seq::empty()
    };
    before(base, patch_start, false) + gap + seq![
        data_view(patch_start, patch_length, patch_block, 0, patch_digest),
    ] + after(base, (patch_start + patch_length) as u64)
}

/// The layout after a write.
pub open spec fn overlaid(
    base: Seq<ExtentView>,
    base_length: u64,
    patch_start: u64,
    patch_length: u64,
    patch_block: Seq<u8>,
    patch_digest: Seq<u8>,
) -> Seq<ExtentView> {
    compacted(
        overlaid_pieces(base, base_length, patch_start, patch_length, patch_block, patch_digest),
    )
}

/// Why a range of a value cannot be replaced.
pub open spec fn overlay_fault(
    base: Seq<ExtentView>,
    logical_length: u64,
    patch_start: u64,
    patch_length: u64,
    patch_block: Seq<u8>,
) -> Option<WorkerError> {
    if layout_fault(logical_length, base) is Some {
        layout_fault(logical_length, base)
    } else if patch_length == 0 {
        Some(WorkerError::InvalidArgument("range patch must not be empty"))
    } else if patch_start + patch_length > u64::MAX {
        Some(WorkerError::InvalidArgument("range patch overflows u64"))
    } else if patch_start + patch_length > logical_length {
        Some(WorkerError::InvalidArgument("range patch extends beyond the base value"))
    } else if patch_block.len() == 0 {
        Some(WorkerError::InvalidArgument("data extent requires a block identity"))
    } else {
        None
    }
}

/// Why a file cannot be written.
pub open spec fn file_write_fault(
    base: Seq<ExtentView>,
    logical_length: u64,
    patch_start: u64,
    patch_length: u64,
    patch_block: Seq<u8>,
) -> Option<WorkerError> {
    if layout_fault(logical_length, base) is Some {
        layout_fault(logical_length, base)
    } else if patch_length == 0 {
        Some(WorkerError::InvalidArgument("file write patch must not be empty"))
    } else if patch_start + patch_length > u64::MAX {
        Some(WorkerError::InvalidArgument("file write patch overflows u64"))
    } else if patch_block.len() == 0 {
        Some(WorkerError::InvalidArgument("data extent requires a block identity"))
    } else {
        None
    }
}

/// The larger of a file's length and the end of a write to it.
pub open spec fn written_length(logical_length: u64, patch_start: u64, patch_length: u64) -> u64 {
    if patch_start + patch_length > logical_length {
        (patch_start + patch_length) as u64
    } else {
        logical_length
    }
}

/// The layout of a file after its length was set.
pub open spec fn truncated(
    base: Seq<ExtentView>,
    logical_length: u64,
    next_length: u64,
) -> Seq<ExtentView> {
    if next_length == logical_length {
        base
    } else if next_length > logical_length {
        compacted(base.push(hole_view(logical_length, (next_length - logical_length) as u64)))
    } else {
        compacted(before(base, next_length, true))
    }
}

/// Why a hole cannot be punched.
pub open spec fn punch_fault(
    base: Seq<ExtentView>,
    logical_length: u64,
    offset: u64,
    length: u64,
) -> Option<WorkerError> {
    if layout_fault(logical_length, base) is Some {
        layout_fault(logical_length, base)
    } else if length == 0 {
        Some(WorkerError::InvalidArgument("hole punch range must not be empty"))
    } else if offset + length > u64::MAX {
        Some(WorkerError::InvalidArgument("hole punch range overflows u64"))
    } else {
        None
    }
}

/// Where a punched hole ends: no further than the file.
pub open spec fn punch_end(logical_length: u64, offset: u64, length: u64) -> u64 {
    if offset + length < logical_length {
        (offset + length) as u64
    } else {
        logical_length
    }
}

/// The layout of a file after a hole was punched.
pub open spec fn punched(
    base: Seq<ExtentView>,
    logical_length: u64,
    offset: u64,
    length: u64,
) -> Seq<ExtentView> {
    if offset >= logical_length {
        base
    } else {
        let end = punch_end(logical_length, offset, length);
        compacted(
            before(base, offset, false) + seq![hole_view(offset, (end - offset) as u64)] + after(
                base,
                end,
            ),
        )
    }
}

/// What of an extent goes into the digest of its layout.
pub open spec fn extent_bytes(extent: ExtentView) -> Seq<u8> {
    let range = match extent.logical {
        Some(logical) => be_bytes_of(logical.offset) + be_bytes_of(logical.length),
        None => Seq::empty(),
    };
    let kind = if extent.is_hole() {
        2u8
    } else {
        1u8
    };
    range + seq![kind] + be_bytes_of(extent.block_id.len() as u64) + extent.block_id + be_bytes_of(
        extent.block_offset,
    ) + extent.digest
}

/// What goes into the digest of a layout.
pub open spec fn layout_bytes(logical_length: u64, extents: Seq<ExtentView>) -> Seq<u8>
    decreases extents.len(),
{
    if extents.len() == 0 {
        be_bytes_of(logical_length)
    } else {
        layout_bytes(logical_length, extents.drop_last()) + extent_bytes(extents.last())
    }
}

proof fn lemma_run_concat(start: int, first: Seq<ExtentView>, second: Seq<ExtentView>)
    ensures
        run_end(start, first + second) == (match run_end(start, first) {
            Ok(cursor) => run_end(cursor, second),
            Err(error) => Err(error),
        }),
    decreases second.len(),
{
    if second.len() == 0 {
        assert(first + second =~= first);
    } else {
        assert((first + second).drop_last() =~= first + second.drop_last());
        lemma_run_concat(start, first, second.drop_last());
    }
}

proof fn lemma_source_concat(first: Seq<ExtentView>, second: Seq<ExtentView>, position: int)
    ensures
        source_at(first + second, position) == (match source_at(second, position) {
            Some(source) => Some(source),
            None => source_at(first, position),
        }),
    decreases second.len(),
{
    if second.len() == 0 {
        assert(first + second =~= first);
    } else {
        assert((first + second).drop_last() =~= first + second.drop_last());
        lemma_source_concat(first, second.drop_last(), position);
    }
}

/// Extents that follow each other hold exactly the bytes between their two ends.
proof fn lemma_run_covers(start: int, extents: Seq<ExtentView>, position: int)
    requires
        run_end(start, extents) is Ok,
    ensures
        start <= run_end(start, extents)->Ok_0,
        source_at(extents, position) is Some <==> start <= position < run_end(start, extents)->Ok_0,
    decreases extents.len(),
{
    if extents.len() > 0 {
        lemma_run_covers(start, extents.drop_last(), position);
    }
}

proof fn lemma_before_step(extents: Seq<ExtentView>, cut: u64, remake: bool)
    requires
        extents.len() > 0,
    ensures
        before(extents, cut, remake) == (if extents.last().start() < cut {
            before(extents.drop_last(), cut, remake).push(clip_end(extents.last(), cut, remake))
        } else {
            before(extents.drop_last(), cut, remake)
        }),
{
    reveal(Seq::filter);
    let keep = |extent: ExtentView| extent.start() < cut;
    if extents.last().start() < cut {
        assert(before(extents, cut, remake) =~= before(extents.drop_last(), cut, remake).push(
            clip_end(extents.last(), cut, remake),
        ));
    }
}

proof fn lemma_after_step(extents: Seq<ExtentView>, cut: u64)
    requires
        extents.len() > 0,
    ensures
        after(extents, cut) == (if extents.last().end() > cut {
            after(extents.drop_last(), cut).push(clip_start(extents.last(), cut))
        } else {
            after(extents.drop_last(), cut)
        }),
{
    reveal(Seq::filter);
    if extents.last().end() > cut {
        assert(after(extents, cut) =~= after(extents.drop_last(), cut).push(
            clip_start(extents.last(), cut),
        ));
    }
}

/// What stands before a cut of a layout is a layout up to the cut, with the same bytes.
proof fn lemma_before(extents: Seq<ExtentView>, cut: u64, remake: bool)
    requires
        run_end(0, extents) is Ok,
    ensures
        run_end(0, before(extents, cut, remake)) == Ok::<int, WorkerError>(
            if cut < run_end(0, extents)->Ok_0 {
                cut as int
            } else {
                run_end(0, extents)->Ok_0
            },
        ),
        forall|position: int|
            #![trigger source_at(before(extents, cut, remake), position)]
            source_at(before(extents, cut, remake), position) == (if position < cut {
                source_at(extents, position)
            } else {
                None
            }),
    decreases extents.len(),
{
    if extents.len() == 0 {
        reveal(Seq::filter);
        assert(before(extents, cut, remake) =~= Seq::empty());
    } else {
        let rest = extents.drop_last();
        let last = extents.last();
        lemma_before(rest, cut, remake);
        lemma_before_step(extents, cut, remake);
        let kept = before(rest, cut, remake);
        let all = before(extents, cut, remake);
        if last.start() < cut {
            let clipped = clip_end(last, cut, remake);
            assert(all.drop_last() =~= kept);
            assert(all.last() == clipped);
            assert forall|position: int| source_at(all, position) == (if position < cut {
                source_at(extents, position)
            } else {
                None
            }) by {
                lemma_run_covers(0, extents, position);
                lemma_run_covers(0, rest, position);
                assert(source_at(kept, position) == (if position < cut {
                    source_at(rest, position)
                } else {
                    None
                }));
            }
        } else {
            assert forall|position: int| source_at(all, position) == (if position < cut {
                source_at(extents, position)
            } else {
                None
            }) by {
                assert(source_at(kept, position) == (if position < cut {
                    source_at(rest, position)
                } else {
                    None
                }));
            }
        }
    }
}

/// What stands behind a cut of a layout is a layout from the cut, with the same bytes.
proof fn lemma_after(extents: Seq<ExtentView>, cut: u64)
    requires
        run_end(0, extents) is Ok,
    ensures
        cut >= run_end(0, extents)->Ok_0 ==> after(extents, cut) =~= Seq::empty(),
        cut <= run_end(0, extents)->Ok_0 ==> run_end(cut as int, after(extents, cut)) == run_end(
            0,
            extents,
        ),
        forall|position: int|
            #![trigger source_at(after(extents, cut), position)]
            source_at(after(extents, cut), position) == (if position >= cut {
                source_at(extents, position)
            } else {
                None
            }),
    decreases extents.len(),
{
    if extents.len() == 0 {
        reveal(Seq::filter);
        assert(after(extents, cut) =~= Seq::empty());
    } else {
        let rest = extents.drop_last();
        let last = extents.last();
        lemma_after(rest, cut);
        lemma_after_step(extents, cut);
        let kept = after(rest, cut);
        let all = after(extents, cut);
        if last.end() > cut {
            assert(all.drop_last() =~= kept);
            assert(all.last() == clip_start(last, cut));
        }
        assert forall|position: int| source_at(all, position) == (if position >= cut {
            source_at(extents, position)
        } else {
            None
        }) by {
            lemma_run_covers(0, extents, position);
            lemma_run_covers(0, rest, position);
            assert(source_at(kept, position) == (if position >= cut {
                source_at(rest, position)
            } else {
                None
            }));
        }
    }
}

/// Joining adjacent holes keeps a layout's end and where its bytes come from.
proof fn lemma_compacted(start: int, extents: Seq<ExtentView>)
    requires
        run_end(start, extents) is Ok,
    ensures
        run_end(start, compacted(extents)) == run_end(start, extents),
        forall|position: int|
            #![trigger source_at(compacted(extents), position)]
            source_at(compacted(extents), position) == source_at(extents, position),
        compacted(extents).len() <= extents.len(),
    decreases extents.len(),
{
    if extents.len() > 0 {
        let rest = extents.drop_last();
        let extent = extents.last();
        lemma_compacted(start, rest);
        let shorter = compacted(rest);
        let all = compacted(extents);
        if shorter.len() > 0 && continues_hole(shorter.last(), extent) {
            assert(all.drop_last() =~= shorter.drop_last());
            assert(all.last() == merged(shorter.last(), extent));
        } else {
            assert(all.drop_last() =~= shorter);
        }
        assert forall|position: int| source_at(all, position) == source_at(extents, position) by {
            assert(source_at(shorter, position) == source_at(rest, position));
            lemma_run_covers(start, shorter, position);
            if shorter.len() > 0 {
                lemma_run_covers(start, shorter.drop_last(), position);
            }
        }
    }
}

/// The pieces of a written layout follow each other up to the new length, and their bytes are
/// those of the patch, those of the base, and zeros in between.
proof fn lemma_overlaid_pieces(
    base: Seq<ExtentView>,
    base_length: u64,
    patch_start: u64,
    patch_length: u64,
    patch_block: Seq<u8>,
    patch_digest: Seq<u8>,
)
    requires
        layout_valid(base_length, base),
        patch_length > 0,
        patch_start + patch_length <= u64::MAX,
        patch_block.len() > 0,
    ensures
        run_end(
            0,
            overlaid_pieces(base, base_length, patch_start, patch_length, patch_block, patch_digest),
        ) == Ok::<int, WorkerError>(
            written_length(base_length, patch_start, patch_length) as int,
        ),
        forall|position: int|
            #![trigger source_at(overlaid_pieces(base, base_length, patch_start, patch_length,
                patch_block, patch_digest), position)]
            source_at(
                overlaid_pieces(
                    base,
                    base_length,
                    patch_start,
                    patch_length,
                    patch_block,
                    patch_digest,
                ),
                position,
            ) == overlaid_source(
                base,
                base_length,
                patch_start,
                patch_length,
                patch_block,
                patch_digest,
                position,
            ),
{
    let end = (patch_start + patch_length) as u64;
    let left = before(base, patch_start, false);
    let gap = if patch_start > base_length {
        seq![hole_view(base_length, (patch_start - base_length) as u64)]
    } else {
        Seq::empty()
    };
    let patch = seq![data_view(patch_start, patch_length, patch_block, 0, patch_digest)];
    let right = after(base, end);
    let pieces = left + gap + patch + right;
    lemma_before(base, patch_start, false);
    lemma_after(base, end);
    lemma_run_concat(0, left + gap + patch, right);
    lemma_run_concat(0, left + gap, patch);
    lemma_run_concat(0, left, gap);
    let reached = run_end(0, left)->Ok_0;
    if patch_start > base_length {
        assert(gap.drop_last() =~= Seq::empty());
        assert(run_end(reached, gap.drop_last()) == Ok::<int, WorkerError>(reached));
    }
    assert(run_end(reached, gap) == Ok::<int, WorkerError>(patch_start as int));
    assert(patch.drop_last() =~= Seq::empty());
    assert(run_end(patch_start as int, patch.drop_last()) == Ok::<int, WorkerError>(
        patch_start as int,
    ));
    assert(run_end(patch_start as int, patch) == Ok::<int, WorkerError>(end as int));
    assert forall|position: int| source_at(pieces, position) == overlaid_source(
        base,
        base_length,
        patch_start,
        patch_length,
        patch_block,
        patch_digest,
        position,
    ) by {
        lemma_source_concat(left + gap + patch, right, position);
        lemma_source_concat(left + gap, patch, position);
        lemma_source_concat(left, gap, position);
        lemma_run_covers(0, base, position);
        assert(source_at(left, position) == (if position < patch_start {
            source_at(base, position)
        } else {
            None
        }));
        assert(source_at(right, position) == (if position >= end {
            source_at(base, position)
        } else {
            None
        }));
        assert(source_at(Seq::<ExtentView>::empty(), position) is None);
        assert(source_at(patch.drop_last(), position) is None);
        if patch_start > base_length {
            assert(source_at(gap.drop_last(), position) is None);
        }
    }
}

/// Where a byte of a written value comes from.
pub open spec fn overlaid_source(
    base: Seq<ExtentView>,
    base_length: u64,
    patch_start: u64,
    patch_length: u64,
    patch_block: Seq<u8>,
    patch_digest: Seq<u8>,
    position: int,
) -> Option<Source> {
    if patch_start <= position < patch_start + patch_length {
        Some(
            Source::Block {
                block_id: patch_block,
                offset: position - patch_start,
                digest: patch_digest,
            },
        )
    } else if base_length <= position < patch_start {
        Some(Source::Hole)
    } else {
        source_at(base, position)
    }
}

/// After a write, the written range reads from the patch, a gap between the old end and the
/// patch reads as zeros, and every other byte reads as before. The layout covers the larger of
/// the old length and the end of the write.
pub proof fn a_write_replaces_its_range_and_nothing_else(
    base: Seq<ExtentView>,
    base_length: u64,
    patch_start: u64,
    patch_length: u64,
    patch_block: Seq<u8>,
    patch_digest: Seq<u8>,
)
    requires
        layout_valid(base_length, base),
        patch_length > 0,
        patch_start + patch_length <= u64::MAX,
        patch_block.len() > 0,
    ensures
        layout_valid(
            written_length(base_length, patch_start, patch_length),
            overlaid(base, base_length, patch_start, patch_length, patch_block, patch_digest),
        ),
        forall|position: int|
            #![trigger source_at(overlaid(base, base_length, patch_start, patch_length,
                patch_block, patch_digest), position)]
            source_at(
                overlaid(base, base_length, patch_start, patch_length, patch_block, patch_digest),
                position,
            ) == overlaid_source(
                base,
                base_length,
                patch_start,
                patch_length,
                patch_block,
                patch_digest,
                position,
            ),
{
    let pieces = overlaid_pieces(
        base,
        base_length,
        patch_start,
        patch_length,
        patch_block,
        patch_digest,
    );
    lemma_overlaid_pieces(
        base,
        base_length,
        patch_start,
        patch_length,
        patch_block,
        patch_digest,
    );
    lemma_compacted(0, pieces);
    assert forall|position: int| source_at(compacted(pieces), position) == overlaid_source(
        base,
        base_length,
        patch_start,
        patch_length,
        patch_block,
        patch_digest,
        position,
    ) by {
        assert(source_at(pieces, position) == overlaid_source(
            base,
            base_length,
            patch_start,
            patch_length,
            patch_block,
            patch_digest,
            position,
        ));
    }
}

/// Where a byte of a file comes from after its length was set.
pub open spec fn truncated_source(
    base: Seq<ExtentView>,
    logical_length: u64,
    next_length: u64,
    position: int,
) -> Option<Source> {
    if position >= next_length {
        None
    } else if logical_length <= position {
        Some(Source::Hole)
    } else {
        source_at(base, position)
    }
}

/// Setting a file's length keeps every byte before both lengths, and what is added reads as
/// zeros.
pub proof fn truncation_keeps_the_prefix_and_grows_with_zeros(
    base: Seq<ExtentView>,
    logical_length: u64,
    next_length: u64,
)
    requires
        layout_valid(logical_length, base),
    ensures
        layout_valid(next_length, truncated(base, logical_length, next_length)),
        forall|position: int|
            #![trigger source_at(truncated(base, logical_length, next_length), position)]
            source_at(truncated(base, logical_length, next_length), position) == truncated_source(
                base,
                logical_length,
                next_length,
                position,
            ),
{
    let next = truncated(base, logical_length, next_length);
    if next_length > logical_length {
        let hole = hole_view(logical_length, (next_length - logical_length) as u64);
        let pieces = base.push(hole);
        assert(pieces.drop_last() =~= base);
        lemma_compacted(0, pieces);
        assert forall|position: int| source_at(next, position) == truncated_source(
            base,
            logical_length,
            next_length,
            position,
        ) by {
            lemma_run_covers(0, base, position);
            assert(source_at(compacted(pieces), position) == source_at(pieces, position));
        }
    } else if next_length < logical_length {
        let pieces = before(base, next_length, true);
        lemma_before(base, next_length, true);
        lemma_compacted(0, pieces);
        assert forall|position: int| source_at(next, position) == truncated_source(
            base,
            logical_length,
            next_length,
            position,
        ) by {
            assert(source_at(compacted(pieces), position) == source_at(pieces, position));
        }
    } else {
        assert forall|position: int| source_at(next, position) == truncated_source(
            base,
            logical_length,
            next_length,
            position,
        ) by {
            lemma_run_covers(0, base, position);
        }
    }
}

/// Punching a hole makes the part of the range inside the file read as zeros, keeps every other
/// byte, and keeps the length.
pub proof fn a_punched_hole_reads_as_zeros_and_keeps_the_rest(
    base: Seq<ExtentView>,
    logical_length: u64,
    offset: u64,
    length: u64,
)
    requires
        layout_valid(logical_length, base),
        length > 0,
        offset + length <= u64::MAX,
    ensures
        layout_valid(logical_length, punched(base, logical_length, offset, length)),
        forall|position: int|
            #![trigger source_at(punched(base, logical_length, offset, length), position)]
            source_at(punched(base, logical_length, offset, length), position) == (if offset
                <= position < offset + length && position < logical_length {
                Some(Source::Hole)
            } else {
                source_at(base, position)
            }),
{
    if offset < logical_length {
        let end = punch_end(logical_length, offset, length);
        let left = before(base, offset, false);
        let hole = seq![hole_view(offset, (end - offset) as u64)];
        let right = after(base, end);
        let pieces = left + hole + right;
        lemma_before(base, offset, false);
        lemma_after(base, end);
        lemma_run_concat(0, left + hole, right);
        lemma_run_concat(0, left, hole);
        assert(hole.drop_last() =~= Seq::empty());
        assert(run_end(offset as int, hole.drop_last()) == Ok::<int, WorkerError>(offset as int));
        assert(run_end(offset as int, hole) == Ok::<int, WorkerError>(end as int));
        lemma_compacted(0, pieces);
        assert forall|position: int|
            source_at(punched(base, logical_length, offset, length), position) == (if offset
                <= position < offset + length && position < logical_length {
                Some(Source::Hole)
            } else {
                source_at(base, position)
            }) by {
            assert(source_at(compacted(pieces), position) == source_at(pieces, position));
            lemma_source_concat(left + hole, right, position);
            lemma_source_concat(left, hole, position);
            lemma_run_covers(0, base, position);
            assert(source_at(left, position) == (if position < offset {
                source_at(base, position)
            } else {
                None
            }));
            assert(source_at(right, position) == (if position >= end {
                source_at(base, position)
            } else {
                None
            }));
            assert(source_at(hole.drop_last(), position) is None);
        }
    } else {
        assert forall|position: int|
            source_at(punched(base, logical_length, offset, length), position) == (if offset
                <= position < offset + length && position < logical_length {
                Some(Source::Hole)
            } else {
                source_at(base, position)
            }) by {
            lemma_run_covers(0, base, position);
        }
    }
}

/// Whether an extent stands where the extents before it end, is not empty, and is either a hole that
/// names no block or a slice of a block.
pub open spec fn stands_right(extents: Seq<ExtentView>, at: int) -> bool {
    let extent = extents[at];
    &&& extent.logical is Some
    &&& extent.logical->0.length > 0
    &&& extent.logical->0.offset == if at == 0 {
        0
    } else {
        extents[at - 1].logical->0.offset + extents[at - 1].logical->0.length
    }
    &&& extent.logical->0.offset + extent.logical->0.length <= u64::MAX
    &&& extent.kind == EXTENT_KIND_HOLE ==> extent.block_id.len() == 0 && extent.block_offset == 0
        && extent.digest.len() == 0
    &&& extent.kind != EXTENT_KIND_HOLE ==> (extent.kind == EXTENT_KIND_DATA || extent.kind
        == EXTENT_KIND_UNSPECIFIED) && extent.block_id.len() > 0 && extent.block_offset
        + extent.logical->0.length <= u64::MAX
}

/// A layout is valid if and only if its first extent begins at zero, each other one where the one
/// before it ends, the last one ends with the value, and every one is a proper hole or a proper slice
/// of a block.
pub proof fn a_layout_is_valid_if_its_extents_follow_each_other(
    logical_length: u64,
    extents: Seq<ExtentView>,
)
    ensures
        layout_valid(logical_length, extents) <==> (forall|i: int|
            0 <= i < extents.len() ==> #[trigger] stands_right(extents, i)) && logical_length == (
        if extents.len() == 0 {
            0
        } else {
            extents.last().logical->0.offset + extents.last().logical->0.length
        }),
{
    lemma_stands_right(extents);
}

proof fn lemma_stands_right(extents: Seq<ExtentView>)
    ensures
        run_end(0, extents) is Ok <==> (forall|i: int|
            0 <= i < extents.len() ==> #[trigger] stands_right(extents, i)),
        run_end(0, extents) matches Ok(end) ==> end == (if extents.len() == 0 {
            0
        } else {
            extents.last().logical->0.offset + extents.last().logical->0.length
        }),
    decreases extents.len(),
{
    if extents.len() > 0 {
        let rest = extents.drop_last();
        let last = extents.len() - 1;
        lemma_stands_right(rest);
        if rest.len() > 0 {
            assert(rest.last() == extents[last - 1]);
        }
        assert forall|i: int| 0 <= i < rest.len() implies #[trigger] stands_right(rest, i)
            == stands_right(extents, i) by {
            assert(rest[i] == extents[i]);
            if i > 0 {
                assert(rest[i - 1] == extents[i - 1]);
            }
        }
        if run_end(0, extents) is Ok {
            assert forall|i: int| 0 <= i < extents.len() implies #[trigger] stands_right(
                extents,
                i,
            ) by {
                if i < rest.len() {
                    assert(stands_right(rest, i));
                }
            }
        } else if forall|i: int| 0 <= i < extents.len() ==> #[trigger] stands_right(extents, i) {
            assert forall|i: int| 0 <= i < rest.len() implies #[trigger] stands_right(rest, i) by {
                assert(stands_right(extents, i));
            }
            assert(stands_right(extents, last));
        }
    }
}

/// A valid layout holds exactly the bytes before its length.
pub proof fn a_valid_layout_covers_its_length(
    logical_length: u64,
    extents: Seq<ExtentView>,
    position: int,
)
    requires
        layout_valid(logical_length, extents),
    ensures
        source_at(extents, position) is Some <==> 0 <= position < logical_length,
{
    lemma_run_covers(0, extents, position);
}

/// No two adjacent extents of a compacted run are both holes.
pub proof fn compaction_leaves_no_two_adjacent_holes(extents: Seq<ExtentView>, index: int)
    requires
        run_end(0, extents) is Ok,
        0 <= index < compacted(extents).len() - 1,
    ensures
        !(compacted(extents)[index].is_hole() && compacted(extents)[index + 1].is_hole()),
    decreases extents.len(),
{
    let rest = extents.drop_last();
    let extent = extents.last();
    lemma_compacted(0, extents);
    lemma_compacted(0, rest);
    let shorter = compacted(rest);
    let all = compacted(extents);
    if shorter.len() > 0 && continues_hole(shorter.last(), extent) {
        if index + 1 < all.len() - 1 {
            compaction_leaves_no_two_adjacent_holes(rest, index);
        } else {
            compaction_leaves_no_two_adjacent_holes(rest, index);
            assert(all[index + 1].is_hole() == shorter[index + 1].is_hole());
        }
    } else if index + 1 < all.len() - 1 {
        compaction_leaves_no_two_adjacent_holes(rest, index);
    } else {
        assert(all[index] == shorter.last());
        assert(run_end(0, shorter) == place(shorter.last().start(), shorter.last()));
        assert(run_end(0, shorter) == run_end(0, rest));
    }
}

/// Joined extents with one more behind them.
spec fn with_next(joined: Seq<ExtentView>, extent: ExtentView) -> Seq<ExtentView> {
    if joined.len() > 0 && continues_hole(joined.last(), extent) {
        joined.drop_last().push(merged(joined.last(), extent))
    } else {
        joined.push(extent)
    }
}

proof fn lemma_compacted_push(extents: Seq<ExtentView>, extent: ExtentView)
    ensures
        compacted(extents.push(extent)) == with_next(compacted(extents), extent),
{
    assert(extents.push(extent).drop_last() =~= extents);
}

/// A hole of a layout says nothing but its range.
proof fn lemma_hole_form(cursor: int, extent: ExtentView)
    requires
        place(cursor, extent) is Ok,
        extent.is_hole(),
    ensures
        extent == hole_view(extent.start() as u64, extent.length() as u64),
{
    assert(extent =~= hole_view(extent.start() as u64, extent.length() as u64));
}

/// Two adjacent holes are joined to the same as one hole in their place.
proof fn lemma_next_holes(joined: Seq<ExtentView>, offset: u64, first: u64, second: u64)
    requires
        offset + first + second <= u64::MAX,
    ensures
        with_next(
            with_next(joined, hole_view(offset, first)),
            hole_view((offset + first) as u64, second),
        ) == with_next(joined, hole_view(offset, (first + second) as u64)),
{
    let left = hole_view(offset, first);
    let right = hole_view((offset + first) as u64, second);
    let both = hole_view(offset, (first + second) as u64);
    let next = with_next(joined, left);
    if joined.len() > 0 && continues_hole(joined.last(), left) {
        let last = joined.last();
        assert(next.drop_last() =~= joined.drop_last());
        assert(merged(merged(last, left), right) =~= merged(last, both));
    } else {
        assert(next.drop_last() =~= joined);
        assert(merged(left, right) =~= both);
    }
}

/// Whether a cut is made before or after adjacent holes are joined makes no difference.
proof fn lemma_cut_joined(extents: Seq<ExtentView>, cut: u64)
    requires
        run_end(0, extents) is Ok,
    ensures
        compacted(before(compacted(extents), cut, true)) == compacted(before(extents, cut, true)),
    decreases extents.len(),
{
    if extents.len() > 0 {
        let rest = extents.drop_last();
        let extent = extents.last();
        let shorter = compacted(rest);
        let all = compacted(extents);
        lemma_cut_joined(rest, cut);
        lemma_compacted(0, rest);
        lemma_compacted(0, extents);
        lemma_before_step(extents, cut, true);
        lemma_before_step(all, cut, true);
        let kept = before(rest, cut, true);
        if shorter.len() > 0 && continues_hole(shorter.last(), extent) {
            let last = shorter.last();
            let first = shorter.drop_last();
            let joined = merged(last, extent);
            assert(all.drop_last() =~= first);
            assert(all.last() == joined);
            lemma_before_step(shorter, cut, true);
            let base = before(first, cut, true);
            if extent.start() >= cut {
                if last.start() < cut {
                    assert(clip_end(joined, cut, true) =~= clip_end(last, cut, true));
                }
            } else {
                let end = if extent.end() <= cut {
                    extent.end()
                } else {
                    cut as int
                };
                let offset = last.start() as u64;
                let left = last.length() as u64;
                let right = (end - extent.start()) as u64;
                assert(clip_end(last, cut, true) == hole_view(offset, left));
                assert(clip_end(extent, cut, true) == hole_view((offset + left) as u64, right));
                assert(clip_end(joined, cut, true) == hole_view(offset, (left + right) as u64));
                lemma_compacted_push(base, hole_view(offset, left));
                lemma_compacted_push(base, hole_view(offset, (left + right) as u64));
                lemma_compacted_push(kept, hole_view((offset + left) as u64, right));
                lemma_next_holes(compacted(base), offset, left, right);
            }
        } else {
            assert(all.drop_last() =~= shorter);
            assert(all.last() == extent);
            if extent.start() < cut {
                lemma_compacted_push(before(shorter, cut, true), clip_end(extent, cut, true));
                lemma_compacted_push(kept, clip_end(extent, cut, true));
            }
        }
    }
}

/// A cut before an earlier one is all that is seen of the two.
proof fn lemma_cut_twice(extents: Seq<ExtentView>, first: u64, second: u64)
    requires
        run_end(0, extents) is Ok,
        second <= first,
    ensures
        before(before(extents, first, true), second, true) == before(extents, second, true),
    decreases extents.len(),
{
    if extents.len() == 0 {
        reveal(Seq::filter);
        assert(before(extents, first, true) =~= extents);
    } else {
        let rest = extents.drop_last();
        let extent = extents.last();
        lemma_cut_twice(rest, first, second);
        lemma_before_step(extents, first, true);
        lemma_before_step(extents, second, true);
        if extent.start() < first {
            let kept = before(extents, first, true);
            let clipped = clip_end(extent, first, true);
            assert(kept.drop_last() =~= before(rest, first, true));
            assert(kept.last() == clipped);
            lemma_before_step(kept, second, true);
            if extent.start() < second {
                assert(clip_end(clipped, second, true) =~= clip_end(extent, second, true));
            }
        }
    }
}

/// To shorten a file in two steps gives the layout of shortening it at once.
pub proof fn shortening_twice_is_shortening_once(
    base: Seq<ExtentView>,
    logical_length: u64,
    between: u64,
    next_length: u64,
)
    requires
        layout_valid(logical_length, base),
        next_length <= between <= logical_length,
    ensures
        truncated(truncated(base, logical_length, between), between, next_length) == truncated(
            base,
            logical_length,
            next_length,
        ),
{
    if next_length < between && between < logical_length {
        lemma_before(base, between, true);
        lemma_cut_joined(before(base, between, true), next_length);
        lemma_cut_twice(base, between, next_length);
    }
}

/// Whether each extent says its kind and no two adjacent ones are holes.
pub open spec fn is_normal(extents: Seq<ExtentView>) -> bool {
    &&& forall|i: int|
        #![trigger extents[i]]
        0 <= i < extents.len() ==> extents[i].kind == EXTENT_KIND_DATA || extents[i].is_hole()
    &&& no_adjacent_holes(extents)
}

/// Whether no two adjacent extents are holes.
pub open spec fn no_adjacent_holes(extents: Seq<ExtentView>) -> bool {
    forall|i: int, j: int|
        #![trigger extents[i], extents[j]]
        0 <= i && j == i + 1 && j < extents.len() ==> !(extents[i].is_hole()
            && extents[j].is_hole())
}

/// Joining leaves extents as they are among which no two adjacent ones are holes.
proof fn lemma_nothing_to_join(extents: Seq<ExtentView>)
    requires
        no_adjacent_holes(extents),
    ensures
        compacted(extents) == extents,
    decreases extents.len(),
{
    if extents.len() > 0 {
        let rest = extents.drop_last();
        assert(no_adjacent_holes(rest)) by {
            assert forall|i: int, j: int|
                #![trigger rest[i], rest[j]]
                0 <= i && j == i + 1 && j < rest.len() implies !(rest[i].is_hole()
                && rest[j].is_hole()) by {
                assert(rest[i] == extents[i] && rest[j] == extents[j]);
            }
        }
        lemma_nothing_to_join(rest);
        if rest.len() > 0 {
            assert(rest.last() == extents[extents.len() - 2]);
            assert(extents.last() == extents[extents.len() - 1]);
        }
        assert(rest.push(extents.last()) =~= extents);
    }
}

/// A cut behind extents that say their kind leaves them as they are.
proof fn lemma_cut_behind(extents: Seq<ExtentView>, cut: u64)
    requires
        run_end(0, extents) is Ok,
        run_end(0, extents)->Ok_0 <= cut,
        forall|i: int|
            #![trigger extents[i]]
            0 <= i < extents.len() ==> extents[i].kind == EXTENT_KIND_DATA || extents[i].is_hole(),
    ensures
        before(extents, cut, true) == extents,
    decreases extents.len(),
{
    if extents.len() == 0 {
        reveal(Seq::filter);
        assert(before(extents, cut, true) =~= extents);
    } else {
        let rest = extents.drop_last();
        let last = extents.last();
        assert(extents[extents.len() - 1] == last);
        assert forall|i: int| #![trigger rest[i]] 0 <= i < rest.len() implies rest[i].kind
            == EXTENT_KIND_DATA || rest[i].is_hole() by {
            assert(rest[i] == extents[i]);
        }
        lemma_cut_behind(rest, cut);
        lemma_before_step(extents, cut, true);
        if last.is_hole() {
            lemma_hole_form(last.start(), last);
        }
        assert(clip_end(last, cut, true) =~= last);
        assert(rest.push(last) =~= extents);
    }
}

/// To lengthen a file and to shorten it again gives its layout back, if each extent of the layout
/// says its kind and no two adjacent ones are holes.
pub proof fn shortening_undoes_lengthening(
    base: Seq<ExtentView>,
    logical_length: u64,
    between: u64,
)
    requires
        layout_valid(logical_length, base),
        is_normal(base),
        logical_length < between,
    ensures
        truncated(truncated(base, logical_length, between), between, logical_length) == base,
{
    let hole = hole_view(logical_length, (between - logical_length) as u64);
    let grown = truncated(base, logical_length, between);
    lemma_nothing_to_join(base);
    lemma_compacted_push(base, hole);
    lemma_cut_behind(base, logical_length);
    lemma_before_step(grown, logical_length, true);
    if base.len() > 0 && continues_hole(base.last(), hole) {
        let last = base.last();
        let rest = base.drop_last();
        assert(base[base.len() - 1] == last);
        lemma_hole_form(last.start(), last);
        assert(grown.drop_last() =~= rest);
        assert(grown.last() == merged(last, hole));
        assert(clip_end(merged(last, hole), logical_length, true) =~= last);
        assert forall|i: int| #![trigger rest[i]] 0 <= i < rest.len() implies rest[i].kind
            == EXTENT_KIND_DATA || rest[i].is_hole() by {
            assert(rest[i] == base[i]);
        }
        lemma_cut_behind(rest, logical_length);
        assert(rest.push(last) =~= base);
    } else {
        assert(grown.drop_last() =~= base);
        assert(grown.last() == hole);
    }
}

/// The extent that holds a byte.
proof fn lemma_extent_at(start: int, extents: Seq<ExtentView>, position: int) -> (index: int)
    requires
        run_end(start, extents) is Ok,
        start <= position < run_end(start, extents)->Ok_0,
    ensures
        0 <= index < extents.len(),
        extents[index].start() <= position < extents[index].end(),
    decreases extents.len(),
{
    let rest = extents.drop_last();
    if extents.last().start() <= position {
        extents.len() - 1
    } else {
        let index = lemma_extent_at(start, rest, position);
        assert(rest[index] == extents[index]);
        index
    }
}

/// Where a byte comes from that an extent holds.
proof fn lemma_source_of(start: int, extents: Seq<ExtentView>, index: int, position: int)
    requires
        run_end(start, extents) is Ok,
        0 <= index < extents.len(),
        extents[index].start() <= position < extents[index].end(),
    ensures
        source_at(extents, position) == Some(extents[index].source(position)),
    decreases extents.len(),
{
    if index < extents.len() - 1 {
        let rest = extents.drop_last();
        assert(rest[index] == extents[index]);
        lemma_run_prefix(start, rest, index);
        lemma_source_of(start, rest, index, position);
    }
}

proof fn lemma_before_concat(first: Seq<ExtentView>, second: Seq<ExtentView>, cut: u64)
    ensures
        before(first + second, cut, false) == before(first, cut, false) + before(
            second,
            cut,
            false,
        ),
    decreases second.len(),
{
    let all = first + second;
    if second.len() == 0 {
        reveal(Seq::filter);
        assert(all =~= first);
        assert(before(second, cut, false) =~= Seq::empty());
        assert(before(all, cut, false) =~= before(first, cut, false) + before(second, cut, false));
    } else {
        let rest = second.drop_last();
        assert(all.drop_last() =~= first + rest);
        lemma_before_concat(first, rest, cut);
        lemma_before_step(all, cut, false);
        lemma_before_step(second, cut, false);
        assert(before(all, cut, false) =~= before(first, cut, false) + before(second, cut, false));
    }
}

proof fn lemma_after_concat(first: Seq<ExtentView>, second: Seq<ExtentView>, cut: u64)
    ensures
        after(first + second, cut) == after(first, cut) + after(second, cut),
    decreases second.len(),
{
    let all = first + second;
    if second.len() == 0 {
        reveal(Seq::filter);
        assert(all =~= first);
        assert(after(second, cut) =~= Seq::empty());
        assert(after(all, cut) =~= after(first, cut) + after(second, cut));
    } else {
        let rest = second.drop_last();
        assert(all.drop_last() =~= first + rest);
        lemma_after_concat(first, rest, cut);
        lemma_after_step(all, cut);
        lemma_after_step(second, cut);
        assert(after(all, cut) =~= after(first, cut) + after(second, cut));
    }
}

/// Extents that end before a cut stand before it, and none of them behind it.
proof fn lemma_all_before(extents: Seq<ExtentView>, cut: u64)
    requires
        run_end(0, extents) is Ok,
        run_end(0, extents)->Ok_0 <= cut,
    ensures
        before(extents, cut, false) == extents,
        after(extents, cut) == Seq::<ExtentView>::empty(),
    decreases extents.len(),
{
    if extents.len() == 0 {
        reveal(Seq::filter);
        assert(before(extents, cut, false) =~= extents);
        assert(after(extents, cut) =~= extents);
    } else {
        let rest = extents.drop_last();
        lemma_all_before(rest, cut);
        lemma_before_step(extents, cut, false);
        lemma_after_step(extents, cut);
        assert(rest.push(extents.last()) =~= extents);
    }
}

/// Extents that begin behind a cut stand behind it, and none of them before it.
proof fn lemma_all_after(start: int, extents: Seq<ExtentView>, cut: u64)
    requires
        run_end(start, extents) is Ok,
        start >= cut,
    ensures
        before(extents, cut, false) == Seq::<ExtentView>::empty(),
        after(extents, cut) == extents,
    decreases extents.len(),
{
    if extents.len() == 0 {
        reveal(Seq::filter);
        assert(before(extents, cut, false) =~= extents);
        assert(after(extents, cut) =~= extents);
    } else {
        let rest = extents.drop_last();
        lemma_all_after(start, rest, cut);
        lemma_run_covers(start, rest, 0);
        lemma_before_step(extents, cut, false);
        lemma_after_step(extents, cut);
        assert(rest.push(extents.last()) =~= extents);
    }
}

/// What follows joined extents stays as it is, if no two adjacent ones are holes.
proof fn lemma_join_rest(first: Seq<ExtentView>, second: Seq<ExtentView>)
    requires
        no_adjacent_holes(compacted(first) + second),
    ensures
        compacted(first + second) == compacted(first) + second,
    decreases second.len(),
{
    let joined = compacted(first);
    if second.len() == 0 {
        assert(first + second =~= first);
        assert(joined + second =~= joined);
    } else {
        let rest = second.drop_last();
        let all = joined + second;
        assert(no_adjacent_holes(joined + rest)) by {
            assert forall|i: int, j: int|
                #![trigger (joined + rest)[i], (joined + rest)[j]]
                0 <= i && j == i + 1 && j < (joined + rest).len() implies !((joined
                + rest)[i].is_hole() && (joined + rest)[j].is_hole()) by {
                assert((joined + rest)[i] == all[i] && (joined + rest)[j] == all[j]);
            }
        }
        lemma_join_rest(first, rest);
        assert((first + second).drop_last() =~= first + rest);
        if (joined + rest).len() > 0 {
            assert((joined + rest).last() == all[all.len() - 2]);
            assert(second.last() == all[all.len() - 1]);
        }
        assert((joined + rest).push(second.last()) =~= all);
    }
}

/// A hole that is punched inside a hole leaves a layout as it is.
proof fn lemma_punch_inside_hole(extents: Seq<ExtentView>, index: int, offset: u64, end: u64)
    requires
        run_end(0, extents) is Ok,
        no_adjacent_holes(extents),
        0 <= index < extents.len(),
        extents[index].is_hole(),
        extents[index].start() <= offset < end <= extents[index].end(),
    ensures
        compacted(
            before(extents, offset, false) + seq![hole_view(offset, (end - offset) as u64)]
                + after(extents, end),
        ) == extents,
{
    let left = extents.take(index);
    let around = extents[index];
    let right = extents.skip(index + 1);
    let middle = seq![around];
    let hole = hole_view(offset, (end - offset) as u64);
    lemma_run_prefix(0, extents, index);
    assert(extents =~= left + middle + right);
    assert(extents =~= extents.take(index + 1) + right);
    lemma_run_concat(0, extents.take(index + 1), right);
    lemma_hole_form(around.start(), around);
    let from = around.start() as u64;
    let to = around.end() as u64;
    lemma_before_concat(left + middle, right, offset);
    lemma_before_concat(left, middle, offset);
    lemma_after_concat(left + middle, right, end);
    lemma_after_concat(left, middle, end);
    lemma_all_before(left, offset);
    lemma_all_before(left, end);
    lemma_all_after(around.end(), right, offset);
    lemma_all_after(around.end(), right, end);
    reveal(Seq::filter);
    assert(middle.drop_last() =~= Seq::empty());
    assert(before(Seq::empty(), offset, false) =~= Seq::empty());
    assert(after(Seq::empty(), end) =~= Seq::empty());
    lemma_before_step(middle, offset, false);
    lemma_after_step(middle, end);
    let head = if from < offset {
        seq![hole_view(from, (offset - from) as u64)]
    } else {
        Seq::empty()
    };
    let tail = if end < to {
        seq![hole_view(end, (to - end) as u64)]
    } else {
        Seq::empty()
    };
    assert(before(middle, offset, false) =~= head);
    assert(after(middle, end) =~= tail);
    assert(before(extents, offset, false) =~= left + head);
    assert(after(extents, end) =~= tail + right);
    assert(no_adjacent_holes(left)) by {
        assert forall|i: int, j: int|
            #![trigger left[i], left[j]]
            0 <= i && j == i + 1 && j < left.len() implies !(left[i].is_hole()
            && left[j].is_hole()) by {
            assert(left[i] == extents[i] && left[j] == extents[j]);
        }
    }
    lemma_nothing_to_join(left);
    if left.len() > 0 {
        assert(left.last() == extents[index - 1]);
        assert(!left.last().is_hole());
    }
    let upto = left + head + seq![hole];
    assert(compacted(upto) == left.push(hole_view(from, (end - from) as u64))) by {
        lemma_compacted_push(left, hole_view(from, (end - from) as u64));
        if from < offset {
            lemma_compacted_push(left, head[0]);
            assert(left.push(head[0]) =~= left + head);
            lemma_compacted_push(left + head, hole);
            lemma_next_holes(left, from, (offset - from) as u64, (end - offset) as u64);
            assert((left + head).push(hole) =~= upto);
        } else {
            assert(upto =~= left.push(hole));
        }
    }
    let over = upto + tail;
    assert(compacted(over) == left.push(around)) by {
        if end < to {
            lemma_compacted_push(upto, tail[0]);
            assert(upto.push(tail[0]) =~= over);
            lemma_next_holes(left, from, (end - from) as u64, (to - end) as u64);
        } else {
            assert(over =~= upto);
        }
    }
    assert(compacted(over) + right =~= extents);
    lemma_join_rest(over, right);
    assert(before(extents, offset, false) + seq![hole] + after(extents, end) =~= over + right);
}

/// Whether an extent is a proper one whose block, if it has one, has a digest of 32 bytes.
pub open spec fn is_digested(extent: ExtentView) -> bool {
    &&& extent.logical is Some
    &&& extent.block_id.len() <= u64::MAX
    &&& extent.is_hole() ==> extent.block_id.len() == 0 && extent.block_offset == 0
        && extent.digest.len() == 0
    &&& !extent.is_hole() ==> extent.digest.len() == 32
}

/// Whether two extents are of the same bytes.
pub open spec fn same_slice(first: ExtentView, second: ExtentView) -> bool {
    &&& first.logical == second.logical
    &&& first.is_hole() == second.is_hole()
    &&& first.block_id == second.block_id
    &&& first.block_offset == second.block_offset
    &&& first.digest == second.digest
}

/// The bytes that the digest of a layout is made from tell layouts apart: they are the same only for
/// values of the same length with the same extents.
pub proof fn what_is_digested_tells_layouts_apart(
    first_length: u64,
    first: Seq<ExtentView>,
    second_length: u64,
    second: Seq<ExtentView>,
)
    requires
        forall|i: int| #![trigger first[i]] 0 <= i < first.len() ==> is_digested(first[i]),
        forall|i: int| #![trigger second[i]] 0 <= i < second.len() ==> is_digested(second[i]),
        layout_bytes(first_length, first) == layout_bytes(second_length, second),
    ensures
        first_length == second_length,
        first.len() == second.len(),
        forall|i: int|
            #![trigger first[i], second[i]]
            0 <= i < first.len() ==> same_slice(first[i], second[i]),
{
    lemma_layout_bytes(first_length, first);
    lemma_layout_bytes(second_length, second);
    lemma_head(be_bytes_of(first_length), joined_bytes(first));
    lemma_head(be_bytes_of(second_length), joined_bytes(second));
    crate::bytes::be_bytes_are_injective(first_length, second_length);
    lemma_joined_apart(first, second);
}

/// What of some extents goes into the digest of their layout, from the first one on.
spec fn joined_bytes(extents: Seq<ExtentView>) -> Seq<u8>
    decreases extents.len(),
{
    if extents.len() == 0 {
        Seq::empty()
    } else {
        extent_bytes(extents[0]) + joined_bytes(extents.drop_first())
    }
}

proof fn lemma_joined_push(extents: Seq<ExtentView>)
    requires
        extents.len() > 0,
    ensures
        joined_bytes(extents) == joined_bytes(extents.drop_last()) + extent_bytes(extents.last()),
    decreases extents.len(),
{
    if extents.len() == 1 {
        assert(extents.drop_first() =~= Seq::empty());
        assert(extents.drop_last() =~= Seq::empty());
        assert(joined_bytes(extents) =~= joined_bytes(extents.drop_last()) + extent_bytes(
            extents.last(),
        ));
    } else {
        let tail = extents.drop_first();
        lemma_joined_push(tail);
        assert(extents.drop_last().drop_first() =~= tail.drop_last());
        assert(extents.drop_last()[0] == extents[0]);
        assert(joined_bytes(extents) =~= joined_bytes(extents.drop_last()) + extent_bytes(
            extents.last(),
        ));
    }
}

proof fn lemma_layout_bytes(logical_length: u64, extents: Seq<ExtentView>)
    ensures
        layout_bytes(logical_length, extents) == be_bytes_of(logical_length) + joined_bytes(
            extents,
        ),
    decreases extents.len(),
{
    if extents.len() == 0 {
        assert(layout_bytes(logical_length, extents) =~= be_bytes_of(logical_length)
            + joined_bytes(extents));
    } else {
        lemma_layout_bytes(logical_length, extents.drop_last());
        lemma_joined_push(extents);
        assert(layout_bytes(logical_length, extents) =~= be_bytes_of(logical_length)
            + joined_bytes(extents));
    }
}

/// Two streams that begin with the bytes of proper extents begin with the same extent.
proof fn lemma_extent_bytes_apart(
    first: ExtentView,
    first_rest: Seq<u8>,
    second: ExtentView,
    second_rest: Seq<u8>,
)
    requires
        is_digested(first),
        is_digested(second),
        extent_bytes(first) + first_rest == extent_bytes(second) + second_rest,
    ensures
        same_slice(first, second),
        first_rest == second_rest,
{
    lemma_parts(first, first_rest);
    lemma_parts(second, second_rest);
    lemma_word_apart(first.logical->0.offset, second.logical->0.offset);
    lemma_word_apart(first.logical->0.length, second.logical->0.length);
    assert(kind_byte(first)[0] == kind_byte(second)[0]);
    lemma_word_apart(first.block_id.len() as u64, second.block_id.len() as u64);
    lemma_word_apart(first.block_offset, second.block_offset);
    assert(first.digest.len() == second.digest.len());
}

/// The bytes of a number.
#[verifier::opaque]
spec fn word(value: u64) -> Seq<u8> {
    be_bytes_of(value)
}

/// The byte that tells a hole from a slice of a block.
spec fn kind_byte(extent: ExtentView) -> Seq<u8> {
    seq![
        if extent.is_hole() {
            2u8
        } else {
            1u8
        },
    ]
}

proof fn lemma_word_apart(left: u64, right: u64)
    ensures
        word(left) == word(right) ==> left == right,
{
    reveal(word);
    if word(left) == word(right) {
        crate::bytes::be_bytes_are_injective(left, right);
    }
}

proof fn lemma_parts(extent: ExtentView, rest: Seq<u8>)
    requires
        is_digested(extent),
    ensures
        ({
            let all = extent_bytes(extent) + rest;
            let size = extent.block_id.len() as int;
            let last = 33 + size + extent.digest.len();
            &&& all.subrange(0, 8) == word(extent.logical->0.offset)
            &&& all.subrange(8, 16) == word(extent.logical->0.length)
            &&& all.subrange(16, 17) == kind_byte(extent)
            &&& all.subrange(17, 25) == word(extent.block_id.len() as u64)
            &&& all.subrange(25, 25 + size) == extent.block_id
            &&& all.subrange(25 + size, 33 + size) == word(extent.block_offset)
            &&& all.subrange(33 + size, last) == extent.digest
            &&& all.subrange(last, all.len() as int) == rest
            &&& all.len() == last + rest.len()
        }),
{
    reveal(word);
    lemma_fields(
        be_bytes_of(extent.logical->0.offset),
        be_bytes_of(extent.logical->0.length),
        kind_byte(extent),
        be_bytes_of(extent.block_id.len() as u64),
        extent.block_id,
        be_bytes_of(extent.block_offset),
        extent.digest,
        rest,
    );
}

/// The fields of an extent's bytes, with something behind them, stand where they are looked for.
proof fn lemma_fields(
    offset: Seq<u8>,
    length: Seq<u8>,
    kind: Seq<u8>,
    count: Seq<u8>,
    name: Seq<u8>,
    place: Seq<u8>,
    digest: Seq<u8>,
    rest: Seq<u8>,
)
    requires
        offset.len() == 8,
        length.len() == 8,
        kind.len() == 1,
        count.len() == 8,
        place.len() == 8,
    ensures
        ({
            let all = offset + length + kind + count + name + place + digest + rest;
            let size = name.len() as int;
            let last = 33 + size + digest.len();
            &&& all.subrange(0, 8) == offset
            &&& all.subrange(8, 16) == length
            &&& all.subrange(16, 17) == kind
            &&& all.subrange(17, 25) == count
            &&& all.subrange(25, 25 + size) == name
            &&& all.subrange(25 + size, 33 + size) == place
            &&& all.subrange(33 + size, last) == digest
            &&& all.subrange(last, all.len() as int) == rest
            &&& all.len() == last + rest.len()
        }),
{
    let all = offset + length + kind + count + name + place + digest + rest;
    let size = name.len() as int;
    let last = 33 + size + digest.len();
    assert(all.subrange(0, 8) =~= offset);
    assert(all.subrange(8, 16) =~= length);
    assert(all.subrange(16, 17) =~= kind);
    assert(all.subrange(17, 25) =~= count);
    assert(all.subrange(25, 25 + size) =~= name);
    assert(all.subrange(25 + size, 33 + size) =~= place);
    assert(all.subrange(33 + size, last) =~= digest);
    assert(all.subrange(last, all.len() as int) =~= rest);
}

proof fn lemma_head(head: Seq<u8>, tail: Seq<u8>)
    ensures
        (head + tail).take(head.len() as int) == head,
        (head + tail).skip(head.len() as int) == tail,
{
    assert((head + tail).take(head.len() as int) =~= head);
    assert((head + tail).skip(head.len() as int) =~= tail);
}

proof fn lemma_joined_apart(first: Seq<ExtentView>, second: Seq<ExtentView>)
    requires
        forall|i: int| #![trigger first[i]] 0 <= i < first.len() ==> is_digested(first[i]),
        forall|i: int| #![trigger second[i]] 0 <= i < second.len() ==> is_digested(second[i]),
        joined_bytes(first) == joined_bytes(second),
    ensures
        first.len() == second.len(),
        forall|i: int|
            #![trigger first[i], second[i]]
            0 <= i < first.len() ==> same_slice(first[i], second[i]),
    decreases first.len(),
{
    if first.len() == 0 && second.len() > 0 {
        assert(is_digested(second[0]));
        assert(extent_bytes(second[0]).len() > 0);
        assert(joined_bytes(second).len() > 0);
    } else if first.len() > 0 && second.len() == 0 {
        assert(is_digested(first[0]));
        assert(extent_bytes(first[0]).len() > 0);
        assert(joined_bytes(first).len() > 0);
    } else if first.len() > 0 {
        let first_tail = first.drop_first();
        let second_tail = second.drop_first();
        assert(is_digested(first[0]) && is_digested(second[0]));
        lemma_extent_bytes_apart(
            first[0],
            joined_bytes(first_tail),
            second[0],
            joined_bytes(second_tail),
        );
        assert forall|i: int| #![trigger first_tail[i]] 0 <= i < first_tail.len() implies is_digested(
            first_tail[i],
        ) by {
            assert(first_tail[i] == first[i + 1]);
        }
        assert forall|i: int|
            #![trigger second_tail[i]]
            0 <= i < second_tail.len() implies is_digested(second_tail[i]) by {
            assert(second_tail[i] == second[i + 1]);
        }
        lemma_joined_apart(first_tail, second_tail);
        assert forall|i: int|
            #![trigger first[i], second[i]]
            0 <= i < first.len() implies same_slice(first[i], second[i]) by {
            if i > 0 {
                assert(first_tail[i - 1] == first[i]);
                assert(second_tail[i - 1] == second[i]);
            }
        }
    }
}

/// To punch the same hole again changes nothing.
pub proof fn punching_twice_is_punching_once(
    base: Seq<ExtentView>,
    logical_length: u64,
    offset: u64,
    length: u64,
)
    requires
        layout_valid(logical_length, base),
        length > 0,
        offset + length <= u64::MAX,
    ensures
        punched(punched(base, logical_length, offset, length), logical_length, offset, length)
            == punched(base, logical_length, offset, length),
{
    if offset < logical_length {
        let end = punch_end(logical_length, offset, length);
        let once = punched(base, logical_length, offset, length);
        let left = before(base, offset, false);
        let hole = seq![hole_view(offset, (end - offset) as u64)];
        let right = after(base, end);
        a_punched_hole_reads_as_zeros_and_keeps_the_rest(base, logical_length, offset, length);
        lemma_before(base, offset, false);
        lemma_after(base, end);
        lemma_run_concat(0, left + hole, right);
        lemma_run_concat(0, left, hole);
        assert(hole.drop_last() =~= Seq::empty());
        assert(run_end(offset as int, hole.drop_last()) == Ok::<int, WorkerError>(offset as int));
        assert(run_end(offset as int, hole) == Ok::<int, WorkerError>(end as int));
        assert(no_adjacent_holes(once)) by {
            assert forall|i: int, j: int|
                #![trigger once[i], once[j]]
                0 <= i && j == i + 1 && j < once.len() implies !(once[i].is_hole()
                && once[j].is_hole()) by {
                compaction_leaves_no_two_adjacent_holes(left + hole + right, i);
            }
        }
        let index = lemma_extent_at(0, once, offset as int);
        lemma_source_of(0, once, index, offset as int);
        lemma_run_prefix(0, once, index);
        assert(source_at(once, offset as int) == Some(Source::Hole));
        let reached = once[index].end();
        if reached < end {
            if index + 1 == once.len() {
                assert(once.take(index + 1) =~= once);
            } else {
                lemma_run_prefix(0, once, index + 1);
                lemma_source_of(0, once, index + 1, reached);
                assert(source_at(once, reached) == Some(Source::Hole));
                assert(once[index].is_hole() && once[index + 1].is_hole());
            }
        }
        lemma_punch_inside_hole(once, index, offset, end);
    }
}

impl ExtentRecord {
    /// An equal extent.
    pub fn duplicate(&self) -> (copy: Self)
        ensures
            copy@ == self@,
    {
        ExtentRecord {
            logical: self.logical,
            block_id: copy_bytes(&self.block_id),
            block_offset: self.block_offset,
            digest: copy_bytes(&self.digest),
            kind: self.kind,
        }
    }
}

/// Equal extents.
pub fn copy_extents(extents: &[ExtentRecord]) -> (copy: Vec<ExtentRecord>)
    ensures
        views(copy@) == views(extents@),
{
    let mut copy: Vec<ExtentRecord> = Vec::with_capacity(extents.len());
    let mut i: usize = 0;
    while i < extents.len()
        invariant
            i <= extents.len(),
            views(copy@) =~= views(extents@).take(i as int),
        decreases extents.len() - i,
    {
        let ghost so_far = copy@;
        copy.push(extents[i].duplicate());
        proof {
            lemma_views_push(so_far, copy@.last());
            lemma_views_take(extents@, i as int);
        }
        i = i + 1;
    }
    copy
}

/// Whether an extent is a hole. An extent that does not say its kind is none.
pub fn is_hole(extent: &ExtentRecord) -> (hole: bool)
    ensures
        hole == extent@.is_hole(),
{
    extent.kind == EXTENT_KIND_HOLE
}

/// A slice of a block.
pub fn data_extent(
    offset: u64,
    length: u64,
    block_id: Vec<u8>,
    block_offset: u64,
    digest: Vec<u8>,
) -> (extent: ExtentRecord)
    ensures
        extent@ == data_view(offset, length, block_id@, block_offset, digest@),
{
    ExtentRecord {
        logical: Some(ByteRange { offset, length }),
        block_id,
        block_offset,
        digest,
        kind: EXTENT_KIND_DATA,
    }
}

/// A hole.
pub fn hole_extent(offset: u64, length: u64) -> (extent: ExtentRecord)
    ensures
        extent@ == hole_view(offset, length),
{
    ExtentRecord {
        logical: Some(ByteRange { offset, length }),
        block_id: Vec::new(),
        block_offset: 0,
        digest: Vec::new(),
        kind: EXTENT_KIND_HOLE,
    }
}

/// The end of an extent that is to start at `cursor`, or what is wrong with it.
fn place_extent(cursor: u64, extent: &ExtentRecord) -> (placed: Result<u64, WorkerError>)
    ensures
        match placed {
            Ok(end) => place(cursor as int, extent@) == Ok::<int, WorkerError>(end as int),
            Err(error) => place(cursor as int, extent@) == Err::<int, WorkerError>(error),
        },
{
    let logical = match extent.logical {
        Some(logical) => logical,
        None => return Err(WorkerError::InvalidArgument("extent logical range is missing")),
    };
    if logical.length == 0 || logical.offset != cursor {
        return Err(
            WorkerError::InvalidArgument("version layout contains a gap, overlap, or empty extent"),
        );
    }
    let end: u64 = match cursor.checked_add(logical.length) {
        Some(end) => end,
        None => return Err(WorkerError::InvalidArgument("extent range overflows u64")),
    };
    if is_hole(extent) {
        if extent.block_offset != 0 {
            return Err(WorkerError::InvalidArgument("sparse hole must not point into a block"));
        }
        if extent.block_id.len() != 0 || extent.digest.len() != 0 {
            return Err(
                WorkerError::InvalidArgument("sparse hole must not carry block identity or digest"),
            );
        }
        return Ok(end);
    }
    if extent.kind != EXTENT_KIND_UNSPECIFIED && extent.kind != EXTENT_KIND_DATA {
        return Err(WorkerError::InvalidArgument("unknown extent kind"));
    }
    if extent.block_id.len() == 0 {
        return Err(WorkerError::InvalidArgument("data extent requires a block identity"));
    }
    match extent.block_offset.checked_add(logical.length) {
        Some(_) => Ok(end),
        None => Err(WorkerError::InvalidArgument("block range overflows u64")),
    }
}

proof fn lemma_fault_stays(start: int, extents: Seq<ExtentView>, n: int)
    requires
        0 <= n <= extents.len(),
        run_end(start, extents.take(n)) is Err,
    ensures
        run_end(start, extents) == run_end(start, extents.take(n)),
    decreases extents.len() - n,
{
    if n < extents.len() {
        assert(extents.take(n + 1).drop_last() =~= extents.take(n));
        lemma_fault_stays(start, extents, n + 1);
    } else {
        assert(extents.take(n) =~= extents);
    }
}

pub proof fn lemma_run_prefix(start: int, extents: Seq<ExtentView>, n: int)
    requires
        0 <= n < extents.len(),
        run_end(start, extents) is Ok,
    ensures
        run_end(start, extents.take(n)) == Ok::<int, WorkerError>(extents[n].start()),
        place(extents[n].start(), extents[n]) == Ok::<int, WorkerError>(extents[n].end()),
        run_end(start, extents.take(n + 1)) == Ok::<int, WorkerError>(extents[n].end()),
        extents[n].end() <= run_end(start, extents)->Ok_0,
        run_end(start, extents)->Ok_0 <= u64::MAX,
{
    assert(extents.take(n + 1).drop_last() =~= extents.take(n));
    assert(extents.take(n + 1).last() == extents[n]);
    if run_end(start, extents.take(n)) is Err {
        lemma_fault_stays(start, extents, n);
    }
    if run_end(start, extents.take(n + 1)) is Err {
        lemma_fault_stays(start, extents, n + 1);
    }
    assert(extents =~= extents.take(n + 1) + extents.skip(n + 1));
    lemma_run_concat(start, extents.take(n + 1), extents.skip(n + 1));
    lemma_run_covers(extents[n].end(), extents.skip(n + 1), 0);
}

/// Says what is wrong with a layout, if anything is: its extents must cover `[0,
/// logical_length)`, each byte once and in order.
pub fn validate(logical_length: u64, extents: &[ExtentRecord]) -> (valid: Result<(), WorkerError>)
    ensures
        match valid {
            Ok(_) => layout_valid(logical_length, views(extents@)),
            Err(error) => layout_fault(logical_length, views(extents@)) == Some(error),
        },
{
    let mut cursor: u64 = 0;
    let mut i: usize = 0;
    while i < extents.len()
        invariant
            i <= extents.len(),
            run_end(0, views(extents@).take(i as int)) == Ok::<int, WorkerError>(cursor as int),
        decreases extents.len() - i,
    {
        proof {
            lemma_views_take(extents@, i as int);
        }
        match place_extent(cursor, &extents[i]) {
            Ok(end) => {
                cursor = end;
            },
            Err(error) => {
                proof {
                    lemma_fault_stays(0, views(extents@), i + 1);
                }
                return Err(error);
            },
        }
        i = i + 1;
    }
    assert(views(extents@).take(i as int) =~= views(extents@));
    if cursor != logical_length {
        return Err(
            WorkerError::InvalidArgument("version layout does not cover its logical length"),
        );
    }
    Ok(())
}

/// The part of an extent from `logical_offset`, of the given length, `block_delta` bytes into it.
fn slice_extent(
    extent: &ExtentRecord,
    logical_offset: u64,
    logical_length: u64,
    block_delta: u64,
) -> (slice: ExtentRecord)
    requires
        !extent@.is_hole() ==> extent.block_offset + block_delta <= u64::MAX,
    ensures
        slice@ == slice_of(extent@, logical_offset, logical_length, block_delta),
{
    if is_hole(extent) {
        hole_extent(logical_offset, logical_length)
    } else {
        data_extent(
            logical_offset,
            logical_length,
            copy_bytes(&extent.block_id),
            extent.block_offset + block_delta,
            copy_bytes(&extent.digest),
        )
    }
}

/// The part of a layout before `cut`.
fn extents_before(base: &[ExtentRecord], cut: u64, remake: bool) -> (kept: Vec<ExtentRecord>)
    requires
        run_end(0, views(base@)) is Ok,
    ensures
        views(kept@) == before(views(base@), cut, remake),
{
    let mut kept: Vec<ExtentRecord> = Vec::new();
    let mut i: usize = 0;
    proof {
        reveal(Seq::filter);
        assert(before(views(base@).take(0), cut, remake) =~= Seq::empty());
    }
    while i < base.len()
        invariant
            i <= base.len(),
            run_end(0, views(base@)) is Ok,
            views(kept@) == before(views(base@).take(i as int), cut, remake),
        decreases base.len() - i,
    {
        let ghost all = views(base@);
        let ghost so_far = kept@;
        proof {
            lemma_views_take(base@, i as int);
            lemma_run_prefix(0, all, i as int);
            lemma_before_step(all.take(i + 1), cut, remake);
        }
        if let Some(logical) = base[i].logical {
            if logical.offset < cut {
                let end: u64 = logical.offset + logical.length;
                if end <= cut {
                    if remake {
                        kept.push(slice_extent(&base[i], logical.offset, logical.length, 0));
                    } else {
                        kept.push(base[i].duplicate());
                    }
                } else {
                    kept.push(slice_extent(&base[i], logical.offset, cut - logical.offset, 0));
                }
                proof {
                    lemma_views_push(so_far, kept@.last());
                }
            }
        }
        i = i + 1;
    }
    assert(views(base@).take(i as int) =~= views(base@));
    kept
}

/// Appends the part of a layout at `cut` and behind it.
fn push_extents_after(target: &mut Vec<ExtentRecord>, base: &[ExtentRecord], cut: u64)
    requires
        run_end(0, views(base@)) is Ok,
    ensures
        views(final(target)@) == views(old(target)@) + after(views(base@), cut),
{
    let ghost first = views(target@);
    let mut i: usize = 0;
    proof {
        reveal(Seq::filter);
        assert(after(views(base@).take(0), cut) =~= Seq::empty());
        assert(first + after(views(base@).take(0), cut) =~= first);
    }
    while i < base.len()
        invariant
            i <= base.len(),
            run_end(0, views(base@)) is Ok,
            views(target@) == first + after(views(base@).take(i as int), cut),
        decreases base.len() - i,
    {
        let ghost all = views(base@);
        let ghost so_far = target@;
        proof {
            lemma_views_take(base@, i as int);
            lemma_run_prefix(0, all, i as int);
            lemma_after_step(all.take(i + 1), cut);
        }
        if let Some(logical) = base[i].logical {
            let end: u64 = logical.offset + logical.length;
            if end > cut {
                if logical.offset >= cut {
                    target.push(base[i].duplicate());
                } else {
                    target.push(slice_extent(&base[i], cut, end - cut, cut - logical.offset));
                }
                proof {
                    lemma_views_push(so_far, target@.last());
                    assert((first + after(all.take(i as int), cut)).push(target@.last()@) =~= first
                        + after(all.take(i as int), cut).push(target@.last()@));
                }
            }
        }
        i = i + 1;
    }
    assert(views(base@).take(i as int) =~= views(base@));
}

/// The extents with adjacent holes joined.
fn compact(extents: Vec<ExtentRecord>) -> (joined: Vec<ExtentRecord>)
    requires
        run_end(0, views(extents@)) is Ok,
    ensures
        views(joined@) == compacted(views(extents@)),
{
    let mut joined: Vec<ExtentRecord> = Vec::with_capacity(extents.len());
    let mut i: usize = 0;
    while i < extents.len()
        invariant
            i <= extents.len(),
            run_end(0, views(extents@)) is Ok,
            views(joined@) =~= compacted(views(extents@).take(i as int)),
        decreases extents.len() - i,
    {
        let ghost all = views(extents@);
        let ghost so_far = joined@;
        proof {
            lemma_views_take(extents@, i as int);
            lemma_run_prefix(0, all, i as int);
            lemma_compacted(0, all.take(i as int));
            if so_far.len() > 0 {
                lemma_run_prefix(0, views(so_far), so_far.len() - 1);
                assert(views(so_far).take(so_far.len() as int) =~= views(so_far));
            }
        }
        let count: usize = joined.len();
        let mut extended: bool = false;
        if count > 0 {
            if let (Some(previous), Some(logical)) = (
                joined[count - 1].logical,
                extents[i].logical,
            ) {
                if is_hole(&joined[count - 1]) && is_hole(&extents[i]) && previous.offset
                    + previous.length == logical.offset {
                    let longer = ExtentRecord {
                        logical: Some(
                            ByteRange {
                                offset: previous.offset,
                                length: previous.length + logical.length,
                            },
                        ),
                        block_id: Vec::new(),
                        block_offset: 0,
                        digest: Vec::new(),
                        kind: EXTENT_KIND_HOLE,
                    };
                    proof {
                        assert(longer@ =~= merged(so_far.last()@, extents@[i as int]@));
                    }
                    joined.set(count - 1, longer);
                    extended = true;
                    proof {
                        assert(views(joined@) =~= views(so_far).drop_last().push(longer@));
                    }
                }
            }
        }
        if !extended {
            joined.push(extents[i].duplicate());
            proof {
                lemma_views_push(so_far, joined@.last());
            }
        }
        i = i + 1;
    }
    assert(views(extents@).take(i as int) =~= views(extents@));
    joined
}

/// The layout after a write to a value whose layout is valid.
fn overlay_with_length(
    base: &[ExtentRecord],
    base_length: u64,
    patch_start: u64,
    patch_length: u64,
    patch_block: &[u8],
    patch_digest: &[u8],
) -> (next: Vec<ExtentRecord>)
    requires
        layout_valid(base_length, views(base@)),
        patch_length > 0,
        patch_start + patch_length <= u64::MAX,
        patch_block@.len() > 0,
    ensures
        views(next@) == overlaid(
            views(base@),
            base_length,
            patch_start,
            patch_length,
            patch_block@,
            patch_digest@,
        ),
{
    let mut next: Vec<ExtentRecord> = extents_before(base, patch_start, false);
    let ghost left = views(next@);
    let ghost before_gap = next@;
    if patch_start > base_length {
        next.push(hole_extent(base_length, patch_start - base_length));
        proof {
            lemma_views_push(before_gap, next@.last());
        }
    }
    let ghost gap = if patch_start > base_length {
        seq![hole_view(base_length, (patch_start - base_length) as u64)]
    } else {
        Seq::empty()
    };
    assert(views(next@) =~= left + gap);
    let ghost before_patch = next@;
    next.push(
        data_extent(
            patch_start,
            patch_length,
            copy_bytes(patch_block),
            0,
            copy_bytes(patch_digest),
        ),
    );
    let ghost patch = seq![data_view(patch_start, patch_length, patch_block@, 0, patch_digest@)];
    proof {
        lemma_views_push(before_patch, next@.last());
        assert(views(next@) =~= left + gap + patch);
    }
    push_extents_after(&mut next, base, patch_start + patch_length);
    proof {
        lemma_overlaid_pieces(
            views(base@),
            base_length,
            patch_start,
            patch_length,
            patch_block@,
            patch_digest@,
        );
    }
    compact(next)
}

/// Replaces a range of a value without copying what it keeps. The range lies inside the value.
pub fn overlay(
    base: &[ExtentRecord],
    logical_length: u64,
    patch_start: u64,
    patch_length: u64,
    patch_block: &[u8],
    patch_digest: &[u8],
) -> (next: Result<Vec<ExtentRecord>, WorkerError>)
    ensures
        match next {
            Ok(extents) => {
                &&& overlay_fault(
                    views(base@),
                    logical_length,
                    patch_start,
                    patch_length,
                    patch_block@,
                ) is None
                &&& views(extents@) == overlaid(
                    views(base@),
                    logical_length,
                    patch_start,
                    patch_length,
                    patch_block@,
                    patch_digest@,
                )
                &&& layout_valid(logical_length, views(extents@))
            },
            Err(error) => overlay_fault(
                views(base@),
                logical_length,
                patch_start,
                patch_length,
                patch_block@,
            ) == Some(error),
        },
{
    match validate(logical_length, base) {
        Ok(_) => {},
        Err(error) => return Err(error),
    }
    if patch_length == 0 {
        return Err(WorkerError::InvalidArgument("range patch must not be empty"));
    }
    let patch_end: u64 = match patch_start.checked_add(patch_length) {
        Some(end) => end,
        None => return Err(WorkerError::InvalidArgument("range patch overflows u64")),
    };
    if patch_end > logical_length {
        return Err(WorkerError::InvalidArgument("range patch extends beyond the base value"));
    }
    if patch_block.len() == 0 {
        return Err(WorkerError::InvalidArgument("data extent requires a block identity"));
    }
    proof {
        a_write_replaces_its_range_and_nothing_else(
            views(base@),
            logical_length,
            patch_start,
            patch_length,
            patch_block@,
            patch_digest@,
        );
    }
    Ok(
        overlay_with_length(
            base,
            logical_length,
            patch_start,
            patch_length,
            patch_block,
            patch_digest,
        ),
    )
}

/// Writes to a file. The write may reach beyond the end of the file, and may leave a gap, which
/// becomes a hole.
pub fn overlay_file_write(
    base: &[ExtentRecord],
    logical_length: u64,
    patch_start: u64,
    patch_length: u64,
    patch_block: &[u8],
    patch_digest: &[u8],
) -> (next: Result<Vec<ExtentRecord>, WorkerError>)
    ensures
        match next {
            Ok(extents) => {
                &&& file_write_fault(
                    views(base@),
                    logical_length,
                    patch_start,
                    patch_length,
                    patch_block@,
                ) is None
                &&& views(extents@) == overlaid(
                    views(base@),
                    logical_length,
                    patch_start,
                    patch_length,
                    patch_block@,
                    patch_digest@,
                )
                &&& layout_valid(
                    written_length(logical_length, patch_start, patch_length),
                    views(extents@),
                )
            },
            Err(error) => file_write_fault(
                views(base@),
                logical_length,
                patch_start,
                patch_length,
                patch_block@,
            ) == Some(error),
        },
{
    match validate(logical_length, base) {
        Ok(_) => {},
        Err(error) => return Err(error),
    }
    if patch_length == 0 {
        return Err(WorkerError::InvalidArgument("file write patch must not be empty"));
    }
    match patch_start.checked_add(patch_length) {
        Some(_) => {},
        None => return Err(WorkerError::InvalidArgument("file write patch overflows u64")),
    }
    if patch_block.len() == 0 {
        return Err(WorkerError::InvalidArgument("data extent requires a block identity"));
    }
    proof {
        a_write_replaces_its_range_and_nothing_else(
            views(base@),
            logical_length,
            patch_start,
            patch_length,
            patch_block@,
            patch_digest@,
        );
    }
    Ok(
        overlay_with_length(
            base,
            logical_length,
            patch_start,
            patch_length,
            patch_block,
            patch_digest,
        ),
    )
}

/// Sets the length of a file. A shorter file keeps a prefix of its extents; a longer one ends in
/// a hole.
pub fn truncate_file(
    base: &[ExtentRecord],
    logical_length: u64,
    next_logical_length: u64,
) -> (next: Result<Vec<ExtentRecord>, WorkerError>)
    ensures
        match next {
            Ok(extents) => {
                &&& layout_valid(logical_length, views(base@))
                &&& views(extents@) == truncated(views(base@), logical_length, next_logical_length)
                &&& layout_valid(next_logical_length, views(extents@))
            },
            Err(error) => layout_fault(logical_length, views(base@)) == Some(error),
        },
{
    match validate(logical_length, base) {
        Ok(_) => {},
        Err(error) => return Err(error),
    }
    proof {
        truncation_keeps_the_prefix_and_grows_with_zeros(
            views(base@),
            logical_length,
            next_logical_length,
        );
    }
    if next_logical_length == logical_length {
        return Ok(copy_extents(base));
    }
    if next_logical_length > logical_length {
        let mut next: Vec<ExtentRecord> = copy_extents(base);
        let ghost kept = next@;
        next.push(hole_extent(logical_length, next_logical_length - logical_length));
        proof {
            lemma_views_push(kept, next@.last());
            assert(views(next@).drop_last() =~= views(base@));
        }
        return Ok(compact(next));
    }
    proof {
        lemma_before(views(base@), next_logical_length, true);
    }
    Ok(compact(extents_before(base, next_logical_length, true)))
}

/// Makes a range of a file a hole and keeps the file's length. What of the range lies beyond the
/// end of the file has no effect.
pub fn punch_hole_file(
    base: &[ExtentRecord],
    logical_length: u64,
    offset: u64,
    length: u64,
) -> (next: Result<Vec<ExtentRecord>, WorkerError>)
    ensures
        match next {
            Ok(extents) => {
                &&& punch_fault(views(base@), logical_length, offset, length) is None
                &&& views(extents@) == punched(views(base@), logical_length, offset, length)
                &&& layout_valid(logical_length, views(extents@))
            },
            Err(error) => punch_fault(views(base@), logical_length, offset, length) == Some(error),
        },
{
    match validate(logical_length, base) {
        Ok(_) => {},
        Err(error) => return Err(error),
    }
    if length == 0 {
        return Err(WorkerError::InvalidArgument("hole punch range must not be empty"));
    }
    let requested_end: u64 = match offset.checked_add(length) {
        Some(end) => end,
        None => return Err(WorkerError::InvalidArgument("hole punch range overflows u64")),
    };
    proof {
        a_punched_hole_reads_as_zeros_and_keeps_the_rest(
            views(base@),
            logical_length,
            offset,
            length,
        );
    }
    if offset >= logical_length {
        return Ok(copy_extents(base));
    }
    let end: u64 = if requested_end < logical_length {
        requested_end
    } else {
        logical_length
    };
    let mut next: Vec<ExtentRecord> = extents_before(base, offset, false);
    let ghost left = next@;
    next.push(hole_extent(offset, end - offset));
    let ghost hole = seq![hole_view(offset, (end - offset) as u64)];
    proof {
        lemma_views_push(left, next@.last());
        assert(views(next@) =~= views(left) + hole);
    }
    push_extents_after(&mut next, base, end);
    proof {
        let all = views(base@);
        lemma_before(all, offset, false);
        lemma_after(all, end);
        lemma_run_concat(0, before(all, offset, false) + hole, after(all, end));
        lemma_run_concat(0, before(all, offset, false), hole);
        assert(hole.drop_last() =~= Seq::empty());
        assert(run_end(offset as int, hole.drop_last()) == Ok::<int, WorkerError>(offset as int));
        assert(run_end(offset as int, hole) == Ok::<int, WorkerError>(end as int));
    }
    Ok(compact(next))
}

/// What goes into the digest of a layout.
fn encode_layout(logical_length: u64, extents: &[ExtentRecord]) -> (bytes: Vec<u8>)
    ensures
        bytes@ == layout_bytes(logical_length, views(extents@)),
{
    let mut bytes: Vec<u8> = be_bytes(logical_length);
    let mut i: usize = 0;
    assert(views(extents@).take(0) =~= Seq::empty());
    while i < extents.len()
        invariant
            i <= extents.len(),
            bytes@ == layout_bytes(logical_length, views(extents@).take(i as int)),
        decreases extents.len() - i,
    {
        let ghost so_far = bytes@;
        let extent = &extents[i];
        proof {
            lemma_views_take(extents@, i as int);
        }
        if let Some(logical) = extent.logical {
            append_bytes(&mut bytes, &be_bytes(logical.offset));
            append_bytes(&mut bytes, &be_bytes(logical.length));
        }
        let kind: u8 = if is_hole(extent) {
            2
        } else {
            1
        };
        bytes.push(kind);
        append_bytes(&mut bytes, &be_bytes(extent.block_id.len() as u64));
        append_bytes(&mut bytes, &extent.block_id);
        append_bytes(&mut bytes, &be_bytes(extent.block_offset));
        append_bytes(&mut bytes, &extent.digest);
        assert(bytes@ =~= so_far + extent_bytes(extent@));
        i = i + 1;
    }
    assert(views(extents@).take(i as int) =~= views(extents@));
    bytes
}

/// The digest of a layout, which names the version. Each block keeps the digest of its own
/// payload.
pub fn digest(logical_length: u64, extents: &[ExtentRecord]) -> (digest: Vec<u8>)
    ensures
        digest@ == sha256_of(layout_bytes(logical_length, views(extents@))),
        digest@.len() == 32,
{
    digest_bytes(&encode_layout(logical_length, extents))
}

} // verus!
