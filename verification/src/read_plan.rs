//! Which bytes a read takes from where: zeros for holes, slices of local blocks, and slices of
//! blocks that are missing and have to be pulled from other nodes.
use crate::arena::ArenaReadTicket;
#[allow(unused_imports)]
use crate::arena::ArenaView;
use crate::bytes::{copy_bytes, same_bytes};
#[allow(unused_imports)]
use crate::bytes::{lemma_views_push, lemma_views_take, views};
use crate::error::{ArenaError, WorkerError};
use crate::node::NodeState;
#[allow(unused_imports)]
use crate::node::NodeView;
use crate::peer_import::{PeerPullSource, PeerPullSpec};
#[allow(unused_imports)]
use crate::peer_import::{PullSpecView, SourceView};
use crate::protocol::{BlockReplicaSet, ReplicaLocation};
#[allow(unused_imports)]
use crate::protocol::{LocationView, ReplicaSetView};
use crate::version_layout::{is_hole, ExtentRecord};
#[allow(unused_imports)]
use crate::version_layout::{place, run_end, source_at, ExtentView, Source, EXTENT_KIND_HOLE};
use vstd::prelude::*;

verus! {

/// A part of a read whose bytes are all here.
#[derive(Clone, Copy, Debug, PartialEq, Eq, Structural)]
pub enum PlannedReadPart {
    Block { logical_offset: u64, read: ArenaReadTicket },
    Zero { logical_offset: u64, length: u64 },
}

/// A part of a read, some of whose bytes may have to be pulled.
#[derive(Debug, PartialEq, Eq)]
pub enum DataCorePlannedReadPart {
    Block { logical_offset: u64, read: ArenaReadTicket },
    Remote { logical_offset: u64, block_id: Vec<u8>, block_offset: u64, length: u64 },
    Zero { logical_offset: u64, length: u64 },
}

/// A part of a read, as a value. Offsets count from the start of the read.
#[verifier::ext_equal]
pub enum PartView {
    Block { offset: u64, read: ArenaReadTicket },
    Remote { offset: u64, block_id: Seq<u8>, block_offset: u64, length: u64 },
    Zero { offset: u64, length: u64 },
}

impl View for PlannedReadPart {
    type V = PartView;

    open spec fn view(&self) -> PartView {
        match *self {
            PlannedReadPart::Block { logical_offset, read } => PartView::Block {
                offset: logical_offset,
                read,
            },
            PlannedReadPart::Zero { logical_offset, length } => PartView::Zero {
                offset: logical_offset,
                length,
            },
        }
    }
}

impl View for DataCorePlannedReadPart {
    type V = PartView;

    open spec fn view(&self) -> PartView {
        match *self {
            DataCorePlannedReadPart::Block { logical_offset, read } => PartView::Block {
                offset: logical_offset,
                read,
            },
            DataCorePlannedReadPart::Remote { logical_offset, block_id, block_offset, length } =>
                PartView::Remote { offset: logical_offset, block_id: block_id@, block_offset, length },
            DataCorePlannedReadPart::Zero { logical_offset, length } => PartView::Zero {
                offset: logical_offset,
                length,
            },
        }
    }
}

impl PartView {
    /// Where the part starts.
    pub open spec fn start(self) -> int {
        match self {
            PartView::Block { offset, .. } => offset as int,
            PartView::Remote { offset, .. } => offset as int,
            PartView::Zero { offset, .. } => offset as int,
        }
    }

    /// How many bytes the part has.
    pub open spec fn length(self) -> int {
        match self {
            PartView::Block { read, .. } => read.length as int,
            PartView::Remote { length, .. } => length as int,
            PartView::Zero { length, .. } => length as int,
        }
    }
}

/// Where a part starts.
pub fn planned_read_part_offset(part: &PlannedReadPart) -> (offset: u64)
    ensures
        offset == part@.start(),
{
    match part {
        PlannedReadPart::Zero { logical_offset, .. } => *logical_offset,
        PlannedReadPart::Block { logical_offset, .. } => *logical_offset,
    }
}

/// Where a part starts.
pub fn data_core_planned_read_part_offset(part: &DataCorePlannedReadPart) -> (offset: u64)
    ensures
        offset == part@.start(),
{
    match part {
        DataCorePlannedReadPart::Zero { logical_offset, .. } => *logical_offset,
        DataCorePlannedReadPart::Block { logical_offset, .. } => *logical_offset,
        DataCorePlannedReadPart::Remote { logical_offset, .. } => *logical_offset,
    }
}

/// The bytes with which the endpoint of a node that can be pulled from starts.
pub open spec fn http_prefix() -> Seq<u8> {
    seq![104u8, 116u8, 116u8, 112u8, 58u8, 47u8, 47u8]
}

/// Whether a node can be pulled from.
pub open spec fn is_http(endpoint: Seq<char>) -> bool {
    let bytes = vstd::utf8::encode_utf8(endpoint);
    bytes.len() >= 7 && bytes.take(7) == http_prefix()
}

/// The nodes of some locations that can be pulled from.
pub open spec fn sources_of(locations: Seq<LocationView>) -> Seq<SourceView> {
    locations.filter(|location: LocationView| is_http(location.data_endpoint)).map_values(
        |location: LocationView|
            SourceView {
                node_id: location.node_id,
                node_epoch: location.node_epoch,
                endpoint: location.data_endpoint,
            },
    )
}

/// The first of some replica sets that is for a block.
pub open spec fn set_for(sets: Seq<ReplicaSetView>, block_id: Seq<u8>) -> Option<ReplicaSetView>
    decreases sets.len(),
{
    if sets.len() == 0 {
        None
    } else if sets[0].block_id == block_id {
        Some(sets[0])
    } else {
        set_for(sets.drop_first(), block_id)
    }
}

/// The missing block of an extent and where it can be had, or why it cannot.
pub open spec fn described(sets: Seq<ReplicaSetView>, extent: ExtentView) -> Result<
    PullSpecView,
    WorkerError,
> {
    match set_for(sets, extent.block_id) {
        None => Err(WorkerError::NotFound),
        Some(set) => if sources_of(set.replicas).len() == 0 {
            Err(WorkerError::NoLiveReplica)
        } else {
            Ok(
                PullSpecView {
                    sources: sources_of(set.replicas),
                    block_id: extent.block_id,
                    expected_checksum: extent.digest,
                    expected_length: set.length,
                },
            )
        },
    }
}

/// Whether a missing block is among some.
pub open spec fn among(missing: Seq<PullSpecView>, block_id: Seq<u8>) -> bool {
    exists|i: int| #![trigger missing[i]] 0 <= i < missing.len() && missing[i].block_id == block_id
}

/// The larger of two numbers.
pub open spec fn larger(left: int, right: int) -> int {
    if left > right {
        left
    } else {
        right
    }
}

/// The smaller of two numbers.
pub open spec fn smaller(left: int, right: int) -> int {
    if left < right {
        left
    } else {
        right
    }
}

impl NodeView {
    /// The right to read a slice of an extent's block, if the block is here and usable, or why
    /// the block cannot be read at all.
    pub open spec fn located(self, read_scope_id: u64, extent: ExtentView, low: int, high: int) -> Result<
        Option<ArenaReadTicket>,
        WorkerError,
    > {
        if self.retirements.blocks_new_reads(extent.block_id, read_scope_id) {
            Err(WorkerError::NotFound)
        } else if self.imports.failure(extent.block_id, read_scope_id) is Some {
            Err(self.imports.failure(extent.block_id, read_scope_id)->0.error)
        } else if self.imports.flights.contains_key(extent.block_id) {
            Ok(None)
        } else {
            match self.arena.opened(
                extent.block_id,
                Some(((extent.block_offset + low - extent.start()) as u64, (high - low) as u64)),
            ) {
                Ok((ticket, _)) => Ok(Some(ticket)),
                Err(ArenaError::UnknownBlock) => Ok(None),
                Err(_) => Err(WorkerError::ArenaInvalidRequest),
            }
        }
    }

    /// The parts of a read and the missing blocks, after one more extent.
    pub open spec fn planned_step(
        self,
        read_scope_id: u64,
        extent: ExtentView,
        sets: Seq<ReplicaSetView>,
        start: int,
        end: int,
        parts: Seq<PartView>,
        missing: Seq<PullSpecView>,
    ) -> Result<(Seq<PartView>, Seq<PullSpecView>), WorkerError> {
        let low = larger(start, extent.start());
        let high = smaller(end, extent.end());
        let offset = (low - start) as u64;
        let length = (high - low) as u64;
        if low >= high {
            Ok((parts, missing))
        } else if extent.is_hole() {
            Ok((parts.push(PartView::Zero { offset, length }), missing))
        } else {
            match self.located(read_scope_id, extent, low, high) {
                Err(error) => Err(error),
                Ok(Some(read)) => Ok((parts.push(PartView::Block { offset, read }), missing)),
                Ok(None) => {
                    let remote = PartView::Remote {
                        offset,
                        block_id: extent.block_id,
                        block_offset: (extent.block_offset + low - extent.start()) as u64,
                        length,
                    };
                    if among(missing, extent.block_id) {
                        Ok((parts.push(remote), missing))
                    } else {
                        match described(sets, extent) {
                            Err(error) => Err(error),
                            Ok(spec) => Ok((parts.push(remote), missing.push(spec))),
                        }
                    }
                },
            }
        }
    }

    /// The parts of a read of the bytes from `start` to `end`, and the missing blocks, each
    /// once; or why the first extent that cannot be read cannot.
    pub open spec fn planned(
        self,
        read_scope_id: u64,
        extents: Seq<ExtentView>,
        sets: Seq<ReplicaSetView>,
        start: int,
        end: int,
    ) -> Result<(Seq<PartView>, Seq<PullSpecView>), WorkerError>
        decreases extents.len(),
    {
        if extents.len() == 0 {
            Ok((Seq::empty(), Seq::empty()))
        } else {
            match self.planned(read_scope_id, extents.drop_last(), sets, start, end) {
                Err(error) => Err(error),
                Ok((parts, missing)) => self.planned_step(
                    read_scope_id,
                    extents.last(),
                    sets,
                    start,
                    end,
                    parts,
                    missing,
                ),
            }
        }
    }
}

/// A byte of a value.
pub open spec fn byte_at(arena: ArenaView, extents: Seq<ExtentView>, position: int) -> u8 {
    match source_at(extents, position) {
        Some(Source::Block { block_id, offset, .. }) => arena.block_bytes(block_id)[offset],
        _ => 0,
    }
}

/// The bytes of a value from `start` to `end`.
pub open spec fn content(arena: ArenaView, extents: Seq<ExtentView>, start: int, end: int) -> Seq<u8> {
    Seq::new((end - start) as nat, |i: int| byte_at(arena, extents, start + i))
}

/// The bytes of a part that is here.
pub open spec fn part_bytes(arena: ArenaView, part: PartView) -> Seq<u8> {
    match part {
        PartView::Zero { length, .. } => Seq::new(length as nat, |i: int| 0u8),
        PartView::Block { read, .. } => arena.ticket_bytes(read)->Ok_0,
        PartView::Remote { .. } => Seq::empty(),
    }
}

/// The bytes of some parts, one after the other.
pub open spec fn gathered(arena: ArenaView, parts: Seq<PartView>) -> Seq<u8>
    decreases parts.len(),
{
    if parts.len() == 0 {
        Seq::empty()
    } else {
        gathered(arena, parts.drop_last()) + part_bytes(arena, parts.last())
    }
}

/// Whether the parts follow each other from the start of the read and reach some length.
pub open spec fn reaches(parts: Seq<PartView>, length: int) -> bool
    decreases parts.len(),
{
    if parts.len() == 0 {
        length == 0
    } else {
        let last = parts.last();
        last.length() > 0 && last.start() + last.length() == length && reaches(
            parts.drop_last(),
            last.start(),
        )
    }
}

/// Whether a part's memory holds its bytes.
pub open spec fn readable(arena: ArenaView, part: PartView) -> bool {
    part matches PartView::Block { read, .. } ==> arena.ticket_bytes(read) is Ok && arena.ticket_bytes(
        read,
    )->Ok_0.len() == read.length
}

/// Whether a part is here.
pub open spec fn is_local(part: PartView) -> bool {
    !(part is Remote)
}

/// How many bytes of a read lie before `end_of_prefix`.
pub open spec fn reached(start: int, end: int, end_of_prefix: int) -> int {
    if end_of_prefix <= start {
        0
    } else {
        smaller(end, end_of_prefix) - start
    }
}

/// A block is read here if the read may use it, no failure of its import was noted for the read, it is
/// not on its way, and it is here and long enough; it is pulled if it is on its way or not here. A
/// block that is closed to the read is not there for it, and a failure that was noted is what the
/// read gets.
pub proof fn a_block_is_read_here_or_pulled(
    node: NodeView,
    read_scope_id: u64,
    extent: ExtentView,
    low: int,
    high: int,
)
    requires
        node.arena.wf(),
        extent.start() <= low < high <= extent.end(),
        0 <= extent.block_offset + low - extent.start(),
        extent.block_offset + high - extent.start() <= u64::MAX,
    ensures
        ({
            let located = node.located(read_scope_id, extent, low, high);
            let id = extent.block_id;
            let closed = node.retirements.blocks_new_reads(id, read_scope_id);
            let failed = node.imports.failures.contains_key(id) && read_scope_id
                <= node.imports.failures[id].cutoff_scope;
            let coming = node.imports.flights.contains_key(id);
            let here = node.arena.blocks.contains_key(id);
            let from = extent.block_offset + low - extent.start();
            let to = extent.block_offset + high - extent.start();
            &&& closed ==> located == Err::<Option<ArenaReadTicket>, WorkerError>(
                WorkerError::NotFound,
            )
            &&& !closed && failed ==> located == Err::<Option<ArenaReadTicket>, WorkerError>(
                node.imports.failures[id].failure.error,
            )
            &&& !closed && !failed && (coming || !here) ==> located == Ok::<
                Option<ArenaReadTicket>,
                WorkerError,
            >(None)
            &&& !closed && !failed && !coming && here ==> (if to <= node.arena.block_bytes(
                id,
            ).len() {
                located matches Ok(Some(ticket)) && node.arena.ticket_bytes(ticket) == Ok::<
                    Seq<u8>,
                    ArenaError,
                >(node.arena.block_bytes(id).subrange(from, to))
            } else {
                located is Err
            })
        }),
{
    if node.arena.blocks.contains_key(extent.block_id) {
        assert(node.arena.block_wf(extent.block_id));
    }
}

/// A missing block is asked for at the nodes that the first replica set of its name lists with an
/// address that can be pulled from, all of them and in their order, with the length that the set says
/// and the checksum that the layout says. It cannot be had if and only if there is no such set, or no
/// such node.
pub proof fn a_missing_block_is_asked_for_where_it_is(
    sets: Seq<ReplicaSetView>,
    extent: ExtentView,
    at: int,
    replica: int,
)
    requires
        0 <= at < sets.len(),
        sets[at].block_id == extent.block_id,
        forall|i: int| #![trigger sets[i]] 0 <= i < at ==> sets[i].block_id != extent.block_id,
        0 <= replica < sets[at].replicas.len(),
    ensures
        ({
            let location = sets[at].replicas[replica];
            let source = SourceView {
                node_id: location.node_id,
                node_epoch: location.node_epoch,
                endpoint: location.data_endpoint,
            };
            &&& described(sets, extent) matches Ok(spec) ==> {
                &&& spec.block_id == extent.block_id
                &&& spec.expected_checksum == extent.digest
                &&& spec.expected_length == sets[at].length
                &&& spec.sources.len() > 0
                &&& is_http(location.data_endpoint) ==> spec.sources.contains(source)
                &&& forall|i: int|
                    #![trigger spec.sources[i]]
                    0 <= i < spec.sources.len() ==> is_http(spec.sources[i].endpoint)
            }
            &&& is_http(location.data_endpoint) ==> described(sets, extent) is Ok
            &&& described(sets, extent) matches Err(error) ==> error == WorkerError::NoLiveReplica
        }),
{
    lemma_set_for(sets, extent.block_id, at);
    let replicas = sets[at].replicas;
    let usable = |location: LocationView| is_http(location.data_endpoint);
    let kept = replicas.filter(usable);
    let sources = sources_of(replicas);
    assert(sources.len() == kept.len());
    lemma_usable(replicas, usable);
    if is_http(replicas[replica].data_endpoint) {
        lemma_usable_kept(replicas, usable, replica);
        let found = choose|found: int| 0 <= found < kept.len() && kept[found] == replicas[replica];
        assert(sources[found].endpoint == replicas[replica].data_endpoint);
        assert(sources.contains(
            (SourceView {
                node_id: replicas[replica].node_id,
                node_epoch: replicas[replica].node_epoch,
                endpoint: replicas[replica].data_endpoint,
            }),
        ));
    }
    assert forall|i: int| #![trigger sources[i]] 0 <= i < sources.len() implies is_http(
        sources[i].endpoint,
    ) by {
        assert(usable(kept[i]));
    }
}

proof fn lemma_set_for(sets: Seq<ReplicaSetView>, block_id: Seq<u8>, at: int)
    requires
        0 <= at < sets.len(),
        sets[at].block_id == block_id,
        forall|i: int| #![trigger sets[i]] 0 <= i < at ==> sets[i].block_id != block_id,
    ensures
        set_for(sets, block_id) == Some(sets[at]),
    decreases at,
{
    if at > 0 {
        let rest = sets.drop_first();
        assert(sets[0].block_id != block_id);
        assert forall|i: int| #![trigger rest[i]] 0 <= i < at - 1 implies rest[i].block_id
            != block_id by {
            assert(rest[i] == sets[i + 1]);
        }
        lemma_set_for(rest, block_id, at - 1);
    }
}

proof fn lemma_usable(locations: Seq<LocationView>, usable: spec_fn(LocationView) -> bool)
    ensures
        forall|i: int|
            #![trigger locations.filter(usable)[i]]
            0 <= i < locations.filter(usable).len() ==> usable(locations.filter(usable)[i]),
    decreases locations.len(),
{
    reveal(Seq::filter);
    if locations.len() > 0 {
        lemma_usable(locations.drop_last(), usable);
        let rest = locations.drop_last().filter(usable);
        let all = locations.filter(usable);
        assert forall|i: int| #![trigger all[i]] 0 <= i < all.len() implies usable(all[i]) by {
            if i < rest.len() {
                assert(rest[i] == all[i]);
            }
        }
    }
}

proof fn lemma_usable_kept(
    locations: Seq<LocationView>,
    usable: spec_fn(LocationView) -> bool,
    at: int,
)
    requires
        0 <= at < locations.len(),
        usable(locations[at]),
    ensures
        locations.filter(usable).contains(locations[at]),
    decreases locations.len(),
{
    reveal(Seq::filter);
    let rest = locations.drop_last();
    let all = locations.filter(usable);
    if at == locations.len() - 1 {
        assert(all[rest.filter(usable).len() as int] == locations[at]);
    } else {
        assert(rest[at] == locations[at]);
        lemma_usable_kept(rest, usable, at);
        let found = choose|found: int|
            0 <= found < rest.filter(usable).len() && rest.filter(usable)[found] == locations[at];
        assert(all[found] == locations[at]);
    }
}

/// Whether an extent holds bytes of a read, and takes them from a block.
pub open spec fn is_read(extent: ExtentView, start: int, end: int) -> bool {
    &&& extent.kind != EXTENT_KIND_HOLE
    &&& extent.start() < end
    &&& start < extent.end()
    &&& start < end
    &&& extent.start() < extent.end()
}

/// Whether a read takes bytes from a block.
pub open spec fn needs(extents: Seq<ExtentView>, block_id: Seq<u8>, start: int, end: int) -> bool {
    exists|i: int|
        #![trigger extents[i]]
        0 <= i < extents.len() && is_read(extents[i], start, end) && extents[i].block_id
            == block_id
}

/// A read asks for exactly the blocks that it needs and that are not here for it, each once: for
/// every extent that it reads whose block is not here, and for no other block.
pub proof fn a_read_asks_for_exactly_what_it_lacks(
    node: NodeView,
    read_scope_id: u64,
    extents: Seq<ExtentView>,
    sets: Seq<ReplicaSetView>,
    start: int,
    end: int,
)
    requires
        node.planned(read_scope_id, extents, sets, start, end) is Ok,
    ensures
        ({
            let missing = node.planned(read_scope_id, extents, sets, start, end)->Ok_0.1;
            &&& forall|i: int|
                #![trigger extents[i]]
                0 <= i < extents.len() && is_read(extents[i], start, end) ==> (among(
                    missing,
                    extents[i].block_id,
                ) <==> node.imports.flights.contains_key(extents[i].block_id)
                    || !node.arena.blocks.contains_key(extents[i].block_id))
            &&& forall|j: int|
                #![trigger missing[j]]
                0 <= j < missing.len() ==> needs(extents, missing[j].block_id, start, end)
            &&& forall|j: int, k: int|
                #![trigger missing[j], missing[k]]
                0 <= j < k < missing.len() ==> missing[j].block_id != missing[k].block_id
        }),
    decreases extents.len(),
{
    if extents.len() > 0 {
        let rest = extents.drop_last();
        let extent = extents.last();
        a_read_asks_for_exactly_what_it_lacks(node, read_scope_id, rest, sets, start, end);
        let earlier = node.planned(read_scope_id, rest, sets, start, end)->Ok_0.1;
        let missing = node.planned(read_scope_id, extents, sets, start, end)->Ok_0.1;
        let low = larger(start, extent.start());
        let high = smaller(end, extent.end());
        assert(is_read(extent, start, end) <==> low < high && !extent.is_hole());
        assert(missing == earlier || (missing == earlier.push(missing.last()) && missing.len()
            == earlier.len() + 1 && missing.last().block_id == extent.block_id && !among(
            earlier,
            extent.block_id,
        ) && is_read(extent, start, end)));
        assert forall|id: Seq<u8>| #[trigger] among(earlier, id) implies among(missing, id) by {
            let j = choose|j: int|
                #![trigger earlier[j]]
                0 <= j < earlier.len() && earlier[j].block_id == id;
            assert(missing[j] == earlier[j]);
        }
        assert forall|id: Seq<u8>| #[trigger] among(missing, id) implies among(earlier, id) || (id
            == extent.block_id && missing != earlier) by {
            let j = choose|j: int|
                #![trigger missing[j]]
                0 <= j < missing.len() && missing[j].block_id == id;
            if j < earlier.len() {
                assert(earlier[j] == missing[j]);
            }
        }
        assert forall|i: int|
            #![trigger extents[i]]
            0 <= i < extents.len() && is_read(extents[i], start, end) implies (among(
            missing,
            extents[i].block_id,
        ) <==> node.imports.flights.contains_key(extents[i].block_id)
            || !node.arena.blocks.contains_key(extents[i].block_id)) by {
            let id = extents[i].block_id;
            if missing != earlier {
                assert(missing[earlier.len() as int].block_id == extent.block_id);
            }
            if i < rest.len() {
                assert(rest[i] == extents[i]);
            }
        }
        assert forall|j: int| #![trigger missing[j]] 0 <= j < missing.len() implies needs(
            extents,
            missing[j].block_id,
            start,
            end,
        ) by {
            if j < earlier.len() {
                assert(earlier[j] == missing[j]);
                let i = choose|i: int|
                    #![trigger rest[i]]
                    0 <= i < rest.len() && is_read(rest[i], start, end) && rest[i].block_id
                        == earlier[j].block_id;
                assert(extents[i] == rest[i]);
            } else {
                assert(extents[extents.len() - 1] == extent);
            }
        }
        assert forall|j: int, k: int|
            #![trigger missing[j], missing[k]]
            0 <= j < k < missing.len() implies missing[j].block_id != missing[k].block_id by {
            assert(missing[j] == earlier[j]);
            if k < earlier.len() {
                assert(missing[k] == earlier[k]);
            }
        }
    }
}

/// Whether a read finds the bytes of an extent here: the read may use its block, no failure of the
/// block's import was noted for it, and the block is here, not on its way, and long enough.
pub open spec fn is_here(node: NodeView, read_scope_id: u64, extent: ExtentView) -> bool {
    let id = extent.block_id;
    &&& !node.retirements.blocks_new_reads(id, read_scope_id)
    &&& !(node.imports.failures.contains_key(id) && read_scope_id
        <= node.imports.failures[id].cutoff_scope)
    &&& !node.imports.flights.contains_key(id)
    &&& node.arena.blocks.contains_key(id)
    &&& extent.block_offset + extent.length() <= node.arena.blocks[id].length
}

/// A read of extents whose blocks are all here lacks nothing.
pub proof fn a_read_of_what_is_here_lacks_nothing(
    node: NodeView,
    read_scope_id: u64,
    extents: Seq<ExtentView>,
    sets: Seq<ReplicaSetView>,
    start: int,
    end: int,
)
    requires
        forall|i: int|
            #![trigger extents[i]]
            0 <= i < extents.len() && is_read(extents[i], start, end) ==> is_here(
                node,
                read_scope_id,
                extents[i],
            ),
    ensures
        node.planned(read_scope_id, extents, sets, start, end) matches Ok((_, missing))
            && missing.len() == 0,
    decreases extents.len(),
{
    if extents.len() > 0 {
        let rest = extents.drop_last();
        let extent = extents.last();
        assert forall|i: int|
            #![trigger rest[i]]
            0 <= i < rest.len() && is_read(rest[i], start, end) implies is_here(
            node,
            read_scope_id,
            rest[i],
        ) by {
            assert(rest[i] == extents[i]);
        }
        a_read_of_what_is_here_lacks_nothing(node, read_scope_id, rest, sets, start, end);
        assert(extents[extents.len() - 1] == extent);
        let low = larger(start, extent.start());
        let high = smaller(end, extent.end());
        if low < high && !extent.is_hole() {
            assert(is_here(node, read_scope_id, extent));
            assert(node.located(read_scope_id, extent, low, high) matches Ok(Some(_)));
        }
    }
}

/// A plan's parts follow each other, cover the read, and hold the bytes of the value.
pub proof fn lemma_plan(
    node: NodeView,
    read_scope_id: u64,
    extents: Seq<ExtentView>,
    sets: Seq<ReplicaSetView>,
    start: int,
    end: int,
)
    requires
        node.arena.wf(),
        run_end(0, extents) is Ok,
        0 <= start <= end <= u64::MAX,
        node.planned(read_scope_id, extents, sets, start, end) is Ok,
    ensures
        ({
            let (parts, missing) = node.planned(read_scope_id, extents, sets, start, end)->Ok_0;
            let length = reached(start, end, run_end(0, extents)->Ok_0);
            &&& reaches(parts, length)
            &&& forall|i: int|
                #![trigger parts[i]]
                0 <= i < parts.len() ==> readable(node.arena, parts[i])
            &&& missing.len() == 0 <==> forall|i: int|
                #![trigger parts[i]]
                0 <= i < parts.len() ==> is_local(parts[i])
            &&& missing.len() == 0 ==> gathered(node.arena, parts) == content(
                node.arena,
                extents,
                start,
                start + length,
            )
            &&& forall|i: int|
                #![trigger parts[i]]
                0 <= i < parts.len() && parts[i] is Remote ==> among(missing, parts[i]->block_id)
        }),
    decreases extents.len(),
{
    let (parts, missing) = node.planned(read_scope_id, extents, sets, start, end)->Ok_0;
    if extents.len() == 0 {
        assert(gathered(node.arena, parts) =~= content(node.arena, extents, start, start));
    } else {
        let rest = extents.drop_last();
        let extent = extents.last();
        lemma_plan(node, read_scope_id, rest, sets, start, end);
        let (early_parts, early_missing) = node.planned(
            read_scope_id,
            rest,
            sets,
            start,
            end,
        )->Ok_0;
        let early = reached(start, end, extent.start());
        let low = larger(start, extent.start());
        let high = smaller(end, extent.end());
        assert(run_end(0, rest) == Ok::<int, WorkerError>(extent.start()));
        assert(content(node.arena, rest, start, start + early) =~= content(
            node.arena,
            extents,
            start,
            start + early,
        )) by {
            assert forall|position: int| start <= position < start + early implies #[trigger] byte_at(
                node.arena,
                rest,
                position,
            ) == byte_at(node.arena, extents, position) by {}
        }
        if low < high {
            let length = reached(start, end, extent.end());
            assert(early == low - start);
            assert(length == high - start);
            assert(parts.drop_last() =~= early_parts);
            let part = parts.last();
            assert forall|i: int|
                #![trigger parts[i]]
                0 <= i < parts.len() implies readable(node.arena, parts[i]) && (parts[i] is Remote
                ==> among(missing, parts[i]->block_id)) by {
                if i < early_parts.len() {
                    assert(parts[i] == early_parts[i]);
                    if parts[i] is Remote {
                        let j = choose|j: int|
                            #![trigger early_missing[j]]
                            0 <= j < early_missing.len() && early_missing[j].block_id
                                == parts[i]->block_id;
                        assert(missing[j].block_id == parts[i]->block_id);
                    }
                } else if part is Block {
                    lemma_located(node, read_scope_id, extent, low, high);
                } else if part is Remote {
                    if !among(early_missing, extent.block_id) {
                        assert(missing[early_missing.len() as int].block_id == extent.block_id);
                    }
                }
            }
            if part is Remote {
                if among(early_missing, extent.block_id) {
                    assert(missing.len() > 0);
                }
                assert(!is_local(parts[parts.len() - 1]));
            } else {
                assert(missing == early_missing);
                if part is Block {
                    lemma_located(node, read_scope_id, extent, low, high);
                }
                if missing.len() == 0 {
                    assert(gathered(node.arena, parts) =~= content(
                        node.arena,
                        extents,
                        start,
                        start + length,
                    )) by {
                        let bytes = part_bytes(node.arena, part);
                        assert(bytes.len() == high - low);
                        assert forall|i: int| 0 <= i < high - low implies bytes[i] == byte_at(
                            node.arena,
                            extents,
                            low + i,
                        ) by {}
                    }
                } else {
                    let j = choose|j: int|
                        #![trigger early_parts[j]]
                        0 <= j < early_parts.len() && !is_local(early_parts[j]);
                    assert(!is_local(parts[j]));
                }
            }
        } else {
            assert(reached(start, end, extent.end()) == early);
        }
    }
}

/// The ticket that a located block gives reads the block's bytes.
proof fn lemma_located(node: NodeView, read_scope_id: u64, extent: ExtentView, low: int, high: int)
    requires
        node.arena.wf(),
        node.located(read_scope_id, extent, low, high) matches Ok(Some(_)),
        place(extent.start(), extent) is Ok,
        !extent.is_hole(),
        extent.start() <= low < high <= extent.end(),
    ensures
        ({
            let read = node.located(read_scope_id, extent, low, high)->Ok_0->0;
            let bytes = node.arena.ticket_bytes(read)->Ok_0;
            &&& node.arena.ticket_bytes(read) is Ok
            &&& read.length == high - low
            &&& bytes.len() == high - low
            &&& forall|i: int|
                #![trigger bytes[i]]
                0 <= i < high - low ==> bytes[i] == node.arena.block_bytes(
                    extent.block_id,
                )[extent.block_offset + (low + i - extent.start())]
        }),
{
    assert(node.arena.block_wf(extent.block_id));
}

/// Whether a node can be pulled from.
fn can_pull(endpoint: &String) -> (http: bool)
    ensures
        http == is_http(endpoint@),
{
    let bytes = endpoint.as_str().as_bytes();
    if bytes.len() < 7 {
        return false;
    }
    let mut prefix: Vec<u8> = Vec::new();
    prefix.push(104);
    prefix.push(116);
    prefix.push(116);
    prefix.push(112);
    prefix.push(58);
    prefix.push(47);
    prefix.push(47);
    assert(prefix@ =~= http_prefix());
    let head = vstd::slice::slice_subrange(bytes, 0, 7);
    assert(head@ =~= bytes@.take(7));
    same_bytes(head, &prefix)
}

proof fn lemma_sources_step(locations: Seq<LocationView>)
    requires
        locations.len() > 0,
    ensures
        sources_of(locations) == (if is_http(locations.last().data_endpoint) {
            sources_of(locations.drop_last()).push(
                SourceView {
                    node_id: locations.last().node_id,
                    node_epoch: locations.last().node_epoch,
                    endpoint: locations.last().data_endpoint,
                },
            )
        } else {
            sources_of(locations.drop_last())
        }),
{
    reveal(Seq::filter);
    if is_http(locations.last().data_endpoint) {
        assert(sources_of(locations) =~= sources_of(locations.drop_last()).push(
            SourceView {
                node_id: locations.last().node_id,
                node_epoch: locations.last().node_epoch,
                endpoint: locations.last().data_endpoint,
            },
        ));
    }
}

/// The nodes of some locations that can be pulled from.
fn list_sources(locations: &Vec<ReplicaLocation>) -> (sources: Vec<PeerPullSource>)
    ensures
        views(sources@) == sources_of(views(locations@)),
{
    let ghost all = views(locations@);
    let mut sources: Vec<PeerPullSource> = Vec::new();
    let mut i: usize = 0;
    proof {
        reveal(Seq::filter);
        assert(sources_of(all.take(0)) =~= Seq::empty());
    }
    while i < locations.len()
        invariant
            i <= locations@.len(),
            all == views(locations@),
            views(sources@) =~= sources_of(all.take(i as int)),
        decreases locations.len() - i,
    {
        let ghost so_far = sources@;
        proof {
            lemma_views_take(locations@, i as int);
            lemma_sources_step(all.take(i + 1));
        }
        if can_pull(&locations[i].data_endpoint) {
            sources.push(
                PeerPullSource {
                    node_id: locations[i].node_id,
                    node_epoch: locations[i].node_epoch,
                    endpoint: locations[i].data_endpoint.clone(),
                },
            );
            proof {
                lemma_views_push(so_far, sources@.last());
            }
        }
        i = i + 1;
    }
    assert(all.take(i as int) =~= all);
    sources
}

/// The missing block of an extent and where it can be had, or why it cannot.
pub fn describe_missing_block(
    block_replicas: &Vec<BlockReplicaSet>,
    extent: &ExtentRecord,
) -> (spec: Result<PeerPullSpec, WorkerError>)
    ensures
        match spec {
            Ok(spec) => described(views(block_replicas@), extent@) == Ok::<
                PullSpecView,
                WorkerError,
            >(spec@),
            Err(error) => described(views(block_replicas@), extent@) == Err::<
                PullSpecView,
                WorkerError,
            >(error),
        },
{
    let ghost all = views(block_replicas@);
    let mut i: usize = 0;
    assert(all.skip(0) =~= all);
    while i < block_replicas.len()
        invariant
            i <= block_replicas@.len(),
            all == views(block_replicas@),
            set_for(all, extent@.block_id) == set_for(all.skip(i as int), extent@.block_id),
        decreases block_replicas.len() - i,
    {
        assert(all.skip(i as int)[0] == block_replicas@[i as int]@);
        assert(all.skip(i as int).drop_first() =~= all.skip(i + 1));
        if same_bytes(&block_replicas[i].block_id, &extent.block_id) {
            let sources: Vec<PeerPullSource> = list_sources(&block_replicas[i].replicas);
            if sources.len() == 0 {
                return Err(WorkerError::NoLiveReplica);
            }
            return Ok(
                PeerPullSpec {
                    sources,
                    block_id: copy_bytes(&extent.block_id),
                    expected_checksum: copy_bytes(&extent.digest),
                    expected_length: block_replicas[i].length,
                },
            );
        }
        i = i + 1;
    }
    assert(all.skip(i as int) =~= Seq::empty());
    Err(WorkerError::NotFound)
}

/// Whether a missing block is among some.
pub fn is_among(missing: &Vec<PeerPullSpec>, block_id: &Vec<u8>) -> (found: bool)
    ensures
        found == among(views(missing@), block_id@),
{
    let ghost all = views(missing@);
    let mut i: usize = 0;
    while i < missing.len()
        invariant
            i <= missing@.len(),
            all == views(missing@),
            forall|j: int| #![trigger all[j]] 0 <= j < i ==> all[j].block_id != block_id@,
        decreases missing.len() - i,
    {
        if same_bytes(&missing[i].block_id, block_id) {
            assert(all[i as int].block_id == block_id@);
            return true;
        }
        i = i + 1;
    }
    false
}

proof fn lemma_plan_fault_stays(
    node: NodeView,
    read_scope_id: u64,
    extents: Seq<ExtentView>,
    sets: Seq<ReplicaSetView>,
    start: int,
    end: int,
    n: int,
)
    requires
        0 <= n <= extents.len(),
        node.planned(read_scope_id, extents.take(n), sets, start, end) is Err,
    ensures
        node.planned(read_scope_id, extents, sets, start, end) == node.planned(
            read_scope_id,
            extents.take(n),
            sets,
            start,
            end,
        ),
    decreases extents.len() - n,
{
    if n < extents.len() {
        assert(extents.take(n + 1).drop_last() =~= extents.take(n));
        lemma_plan_fault_stays(node, read_scope_id, extents, sets, start, end, n + 1);
    } else {
        assert(extents.take(n) =~= extents);
    }
}

impl NodeState {
    fn locate(&self, read_scope_id: u64, extent: &ExtentRecord, low: u64, high: u64) -> (found: Result<
        Option<ArenaReadTicket>,
        WorkerError,
    >)
        requires
            extent@.logical is Some,
            extent@.start() <= low < high,
            extent.block_offset + low - extent@.start() <= u64::MAX,
        ensures
            found == self@.located(read_scope_id, extent@, low as int, high as int),
    {
        if self.retirements.retirement_blocks_new_reads(&extent.block_id, read_scope_id) {
            return Err(WorkerError::NotFound);
        }
        match self.imports.peer_import_failure(&extent.block_id, read_scope_id) {
            Some(failure) => return Err(failure.error),
            None => {},
        }
        if self.imports.flights.contains(&extent.block_id) {
            return Ok(None);
        }
        let start: u64 = match extent.logical {
            Some(logical) => logical.offset,
            None => 0,
        };
        let block_offset: u64 = extent.block_offset + (low - start);
        match self.arena.open_read(&extent.block_id, Some((block_offset, high - low))) {
            Ok((ticket, _)) => Ok(Some(ticket)),
            Err(ArenaError::UnknownBlock) => Ok(None),
            Err(_) => Err(WorkerError::ArenaInvalidRequest),
        }
    }

    /// Plans a read of a value's bytes from `start` to `end`.
    pub fn plan_read(
        &self,
        read_scope_id: u64,
        extents: &Vec<ExtentRecord>,
        block_replicas: &Vec<BlockReplicaSet>,
        start: u64,
        end: u64,
    ) -> (plan: Result<(Vec<DataCorePlannedReadPart>, Vec<PeerPullSpec>), WorkerError>)
        requires
            run_end(0, views(extents@)) is Ok,
            start <= end,
        ensures
            match plan {
                Ok((parts, missing)) => self@.planned(
                    read_scope_id,
                    views(extents@),
                    views(block_replicas@),
                    start as int,
                    end as int,
                ) == Ok::<(Seq<PartView>, Seq<PullSpecView>), WorkerError>(
                    (views(parts@), views(missing@)),
                ),
                Err(error) => self@.planned(
                    read_scope_id,
                    views(extents@),
                    views(block_replicas@),
                    start as int,
                    end as int,
                ) == Err::<(Seq<PartView>, Seq<PullSpecView>), WorkerError>(error),
            },
    {
        let ghost all = views(extents@);
        let ghost sets = views(block_replicas@);
        let mut parts: Vec<DataCorePlannedReadPart> = Vec::new();
        let mut missing: Vec<PeerPullSpec> = Vec::new();
        let mut i: usize = 0;
        assert(all.take(0) =~= Seq::empty());
        assert(views(parts@) =~= Seq::empty());
        assert(views(missing@) =~= Seq::empty());
        while i < extents.len()
            invariant
                i <= extents@.len(),
                all == views(extents@),
                sets == views(block_replicas@),
                run_end(0, all) is Ok,
                start <= end,
                self@.planned(
                    read_scope_id,
                    all.take(i as int),
                    sets,
                    start as int,
                    end as int,
                ) == Ok::<(Seq<PartView>, Seq<PullSpecView>), WorkerError>(
                    (views(parts@), views(missing@)),
                ),
            decreases extents.len() - i,
        {
            let extent = &extents[i];
            let ghost so_far = parts@;
            let ghost lacking = missing@;
            proof {
                lemma_views_take(extents@, i as int);
                crate::version_layout::lemma_run_prefix(0, all, i as int);
            }
            if let Some(logical) = extent.logical {
                let extent_end: u64 = logical.offset + logical.length;
                let low: u64 = if start > logical.offset {
                    start
                } else {
                    logical.offset
                };
                let high: u64 = if end < extent_end {
                    end
                } else {
                    extent_end
                };
                if low < high {
                    let logical_offset: u64 = low - start;
                    let length: u64 = high - low;
                    if is_hole(extent) {
                        parts.push(DataCorePlannedReadPart::Zero { logical_offset, length });
                    } else {
                        match self.locate(read_scope_id, extent, low, high) {
                            Err(error) => {
                                proof {
                                    lemma_plan_fault_stays(
                                        self@,
                                        read_scope_id,
                                        all,
                                        sets,
                                        start as int,
                                        end as int,
                                        i + 1,
                                    );
                                }
                                return Err(error);
                            },
                            Ok(Some(read)) => {
                                parts.push(DataCorePlannedReadPart::Block { logical_offset, read });
                            },
                            Ok(None) => {
                                if !is_among(&missing, &extent.block_id) {
                                    match describe_missing_block(block_replicas, extent) {
                                        Err(error) => {
                                            proof {
                                                lemma_plan_fault_stays(
                                                    self@,
                                                    read_scope_id,
                                                    all,
                                                    sets,
                                                    start as int,
                                                    end as int,
                                                    i + 1,
                                                );
                                            }
                                            return Err(error);
                                        },
                                        Ok(spec) => {
                                            missing.push(spec);
                                            proof {
                                                lemma_views_push(lacking, missing@.last());
                                            }
                                        },
                                    }
                                }
                                parts.push(
                                    DataCorePlannedReadPart::Remote {
                                        logical_offset,
                                        block_id: copy_bytes(&extent.block_id),
                                        block_offset: extent.block_offset + (low - logical.offset),
                                        length,
                                    },
                                );
                            },
                        }
                    }
                    proof {
                        lemma_views_push(so_far, parts@.last());
                    }
                }
            }
            i = i + 1;
        }
        assert(all.take(i as int) =~= all);
        Ok((parts, missing))
    }
}

} // verus!
