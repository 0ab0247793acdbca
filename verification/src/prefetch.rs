//! Blocks that are pulled ahead of the reads that will want them. Prefetching is opportunistic:
//! it never makes a read fail, and it stays within what imports may hold.
use crate::bytes::copy_bytes;
#[allow(unused_imports)]
use crate::bytes::{lemma_views_push, lemma_views_take, views};
#[allow(unused_imports)]
use crate::error::WorkerError;
use crate::node::NodeState;
#[allow(unused_imports)]
use crate::node::NodeView;
use crate::peer_import::{PeerPullSpec, PEER_PULL_PLAN_BLOCKS_MAX};
#[allow(unused_imports)]
use crate::peer_import::PullSpecView;
use crate::protocol::{BlockReplicaSet, ResolveObjectResponse, VersionLayout};
#[allow(unused_imports)]
use crate::protocol::{LayoutView, ReplicaSetView, ResolvedView};
use crate::read_plan::describe_missing_block;
#[allow(unused_imports)]
use crate::read_plan::{among, described};
use crate::table::KeySet;
use crate::version_layout::{is_hole, validate, ExtentRecord};
#[allow(unused_imports)]
use crate::version_layout::{layout_fault, ExtentView};
use vstd::prelude::*;

verus! {

/// The longest file that is pulled as a whole when its start is read.
pub const FILESYSTEM_PEER_PREFETCH_BYTES_MAX: u64 = 536870912;

/// The most bytes that are pulled ahead for a directory.
pub const FILESYSTEM_DIRECTORY_PREFETCH_BYTES_MAX: u64 = 8388608;

/// The most blocks that are pulled ahead for a directory.
pub const FILESYSTEM_DIRECTORY_PREFETCH_BLOCKS_MAX: usize = 256;

/// A plan in the making: the blocks looked at, the bytes it will bring, and the blocks to pull.
#[verifier::ext_equal]
pub struct PrefetchView {
    pub seen: Set<Seq<u8>>,
    pub bytes: int,
    pub planned: Seq<PullSpecView>,
    pub stopped: bool,
}

/// A plan that has just begun.
pub open spec fn no_prefetch() -> PrefetchView {
    PrefetchView { seen: Set::empty(), bytes: 0, planned: Seq::empty(), stopped: false }
}

/// The bytes of some missing blocks.
pub open spec fn plan_bytes(specs: Seq<PullSpecView>) -> int
    decreases specs.len(),
{
    if specs.len() == 0 {
        0
    } else {
        plan_bytes(specs.drop_last()) + specs.last().expected_length
    }
}

/// Whether every missing block is there once.
pub open spec fn each_once(specs: Seq<PullSpecView>) -> bool {
    forall|i: int, j: int|
        #![trigger specs[i], specs[j]]
        0 <= i < j < specs.len() ==> specs[i].block_id != specs[j].block_id
}

impl NodeView {
    /// How many bytes imports may still bring.
    pub open spec fn import_room(self) -> int {
        self.imports.byte_limit - self.imports.bytes
    }

    /// The plan for a whole file after one more extent. It stops where the file cannot be
    /// pulled as a whole.
    pub open spec fn file_step(
        self,
        read_scope_id: u64,
        sets: Seq<ReplicaSetView>,
        plan: PrefetchView,
        extent: ExtentView,
    ) -> PrefetchView {
        let seen = plan.seen.insert(extent.block_id);
        let charge = if self.imports.flights.contains_key(extent.block_id) {
            0
        } else {
            described(sets, extent)->Ok_0.expected_length as int
        };
        if plan.stopped || extent.is_hole() || plan.seen.contains(extent.block_id) {
            plan
        } else if self.arena.blocks.contains_key(extent.block_id) {
            PrefetchView { seen, ..plan }
        } else if self.retirements.blocks_new_reads(extent.block_id, read_scope_id)
            || self.imports.failures.contains_key(extent.block_id) || described(sets, extent) is Err
            || plan.bytes + charge > self.import_room() || plan.planned.len()
            >= PEER_PULL_PLAN_BLOCKS_MAX {
            PrefetchView { stopped: true, ..plan }
        } else {
            PrefetchView {
                seen,
                bytes: plan.bytes + charge,
                planned: plan.planned.push(described(sets, extent)->Ok_0),
                ..plan
            }
        }
    }

    /// The plan for a whole file.
    pub open spec fn file_plan(
        self,
        read_scope_id: u64,
        sets: Seq<ReplicaSetView>,
        extents: Seq<ExtentView>,
    ) -> PrefetchView
        decreases extents.len(),
    {
        if extents.len() == 0 {
            no_prefetch()
        } else {
            self.file_step(
                read_scope_id,
                sets,
                self.file_plan(read_scope_id, sets, extents.drop_last()),
                extents.last(),
            )
        }
    }

    /// What is pulled where a read of a file lacks some blocks: all that the file lacks where
    /// the read is of its start, and the file is not too large and can be pulled as a whole;
    /// else what the read lacks.
    pub open spec fn prefetched(
        self,
        read_scope_id: u64,
        layout: LayoutView,
        sets: Seq<ReplicaSetView>,
        start: u64,
        length: u64,
        missing: Seq<PullSpecView>,
    ) -> Seq<PullSpecView> {
        let plan = self.file_plan(read_scope_id, sets, layout.extents);
        if start != 0 || length == 0 || length >= layout.logical_length || layout.logical_length
            > FILESYSTEM_PEER_PREFETCH_BYTES_MAX || layout.extents.len() > PEER_PULL_PLAN_BLOCKS_MAX
            || plan.stopped || plan.planned.len() == 0 {
            missing
        } else {
            plan.planned
        }
    }

    /// How many bytes may be pulled ahead for a directory.
    pub open spec fn directory_room(self) -> int {
        if self.import_room() < FILESYSTEM_DIRECTORY_PREFETCH_BYTES_MAX {
            self.import_room()
        } else {
            FILESYSTEM_DIRECTORY_PREFETCH_BYTES_MAX as int
        }
    }

    /// The plan for a directory after one more extent. It stops where it is full.
    pub open spec fn directory_step(
        self,
        read_scope_id: u64,
        sets: Seq<ReplicaSetView>,
        plan: PrefetchView,
        extent: ExtentView,
    ) -> PrefetchView {
        let seen = plan.seen.insert(extent.block_id);
        if plan.stopped || extent.is_hole() || plan.seen.contains(extent.block_id) {
            plan
        } else if self.arena.blocks.contains_key(extent.block_id)
            || self.retirements.blocks_new_reads(extent.block_id, read_scope_id)
            || self.imports.failures.contains_key(extent.block_id) || described(sets, extent)
            is Err {
            PrefetchView { seen, ..plan }
        } else if plan.bytes + described(sets, extent)->Ok_0.expected_length > self.directory_room()
            || plan.planned.len() >= FILESYSTEM_DIRECTORY_PREFETCH_BLOCKS_MAX {
            PrefetchView { stopped: true, ..plan }
        } else {
            PrefetchView {
                seen,
                bytes: plan.bytes + described(sets, extent)->Ok_0.expected_length,
                planned: plan.planned.push(described(sets, extent)->Ok_0),
                ..plan
            }
        }
    }

    /// The plan for a directory after the extents of one more file.
    pub open spec fn directory_steps(
        self,
        read_scope_id: u64,
        sets: Seq<ReplicaSetView>,
        plan: PrefetchView,
        extents: Seq<ExtentView>,
    ) -> PrefetchView
        decreases extents.len(),
    {
        if extents.len() == 0 {
            plan
        } else {
            self.directory_step(
                read_scope_id,
                sets,
                self.directory_steps(read_scope_id, sets, plan, extents.drop_last()),
                extents.last(),
            )
        }
    }

    /// The plan for a directory. Only files that fit into the window as a whole are in it.
    pub open spec fn directory_plan(self, read_scope_id: u64, files: Seq<ResolvedView>) -> PrefetchView
        decreases files.len(),
    {
        if files.len() == 0 {
            no_prefetch()
        } else {
            let plan = self.directory_plan(read_scope_id, files.drop_last());
            match files.last().layout {
                None => plan,
                Some(layout) => if layout_fault(layout.logical_length, layout.extents) is Some
                    || layout.logical_length > FILESYSTEM_DIRECTORY_PREFETCH_BYTES_MAX {
                    plan
                } else {
                    self.directory_steps(
                        read_scope_id,
                        files.last().block_replicas,
                        plan,
                        layout.extents,
                    )
                },
            }
        }
    }
}

/// Whether a plan's blocks are each there once, were looked at, are not here yet, and bring the
/// bytes that it says, within some room.
pub open spec fn plan_fits(node: NodeView, plan: PrefetchView, blocks: int, room: int) -> bool {
    &&& plan.bytes == plan_bytes(plan.planned)
    &&& 0 <= plan.bytes <= room
    &&& plan.planned.len() <= blocks
    &&& each_once(plan.planned)
    &&& forall|i: int|
        #![trigger plan.planned[i]]
        0 <= i < plan.planned.len() ==> plan.seen.contains(plan.planned[i].block_id)
            && !node.arena.blocks.contains_key(plan.planned[i].block_id)
}

proof fn lemma_directory_steps_fit(
    node: NodeView,
    read_scope_id: u64,
    sets: Seq<ReplicaSetView>,
    plan: PrefetchView,
    extents: Seq<ExtentView>,
)
    requires
        plan_fits(
            node,
            plan,
            FILESYSTEM_DIRECTORY_PREFETCH_BLOCKS_MAX as int,
            node.directory_room(),
        ),
    ensures
        plan_fits(
            node,
            node.directory_steps(read_scope_id, sets, plan, extents),
            FILESYSTEM_DIRECTORY_PREFETCH_BLOCKS_MAX as int,
            node.directory_room(),
        ),
    decreases extents.len(),
{
    if extents.len() > 0 {
        lemma_directory_steps_fit(node, read_scope_id, sets, plan, extents.drop_last());
        let earlier = node.directory_steps(read_scope_id, sets, plan, extents.drop_last());
        let next = node.directory_steps(read_scope_id, sets, plan, extents);
        if next.planned.len() > earlier.planned.len() {
            assert(next.planned.drop_last() =~= earlier.planned);
        }
    }
}

/// What is pulled ahead for a directory fits into its window and into what imports may still
/// bring, and holds no block twice and none that is here.
pub proof fn a_directory_prefetch_stays_within_its_window(
    node: NodeView,
    read_scope_id: u64,
    files: Seq<ResolvedView>,
)
    requires
        node.wf(),
    ensures
        ({
            let planned = node.directory_plan(read_scope_id, files).planned;
            &&& plan_bytes(planned) <= 8388608
            &&& plan_bytes(planned) <= node.import_room()
            &&& planned.len() <= 256
            &&& each_once(planned)
            &&& forall|i: int|
                #![trigger planned[i]]
                0 <= i < planned.len() ==> !node.arena.blocks.contains_key(planned[i].block_id)
        }),
{
    lemma_directory_plan_fits(node, read_scope_id, files);
}

proof fn lemma_directory_plan_fits(node: NodeView, read_scope_id: u64, files: Seq<ResolvedView>)
    requires
        node.wf(),
    ensures
        plan_fits(
            node,
            node.directory_plan(read_scope_id, files),
            FILESYSTEM_DIRECTORY_PREFETCH_BLOCKS_MAX as int,
            node.directory_room(),
        ),
    decreases files.len(),
{
    if files.len() > 0 {
        lemma_directory_plan_fits(node, read_scope_id, files.drop_last());
        match files.last().layout {
            None => {},
            Some(layout) => {
                lemma_directory_steps_fit(
                    node,
                    read_scope_id,
                    files.last().block_replicas,
                    node.directory_plan(read_scope_id, files.drop_last()),
                    layout.extents,
                );
            },
        }
    }
}

proof fn lemma_file_plan_once(
    node: NodeView,
    read_scope_id: u64,
    sets: Seq<ReplicaSetView>,
    extents: Seq<ExtentView>,
)
    ensures
        ({
            let plan = node.file_plan(read_scope_id, sets, extents);
            &&& each_once(plan.planned)
            &&& forall|i: int|
                #![trigger plan.planned[i]]
                0 <= i < plan.planned.len() ==> plan.seen.contains(plan.planned[i].block_id)
                    && !node.arena.blocks.contains_key(plan.planned[i].block_id)
            &&& forall|i: int|
                #![trigger extents[i]]
                0 <= i < extents.len() && !plan.stopped && !extents[i].is_hole() ==> plan.seen.contains(
                    extents[i].block_id,
                )
            &&& forall|id: Seq<u8>| #[trigger]
                plan.seen.contains(id) && !node.arena.blocks.contains_key(id)
                    ==> crate::read_plan::among(plan.planned, id)
        }),
    decreases extents.len(),
{
    if extents.len() > 0 {
        let rest = extents.drop_last();
        lemma_file_plan_once(node, read_scope_id, sets, rest);
        let earlier = node.file_plan(read_scope_id, sets, rest);
        let plan = node.file_plan(read_scope_id, sets, extents);
        if plan.planned.len() > earlier.planned.len() {
            assert(plan.planned.drop_last() =~= earlier.planned);
            assert(plan.planned.last().block_id == extents.last().block_id);
        }
        assert forall|i: int|
            #![trigger extents[i]]
            0 <= i < extents.len() && !plan.stopped && !extents[i].is_hole() implies plan.seen.contains(
            extents[i].block_id,
        ) by {
            if i < rest.len() {
                assert(rest[i] == extents[i]);
            }
        }
        assert forall|id: Seq<u8>| #[trigger]
            plan.seen.contains(id) && !node.arena.blocks.contains_key(id) implies crate::read_plan::among(
            plan.planned,
            id,
        ) by {
            if earlier.seen.contains(id) {
                let i = choose|i: int|
                    #![trigger earlier.planned[i]]
                    0 <= i < earlier.planned.len() && earlier.planned[i].block_id == id;
                assert(plan.planned[i].block_id == id);
            } else {
                assert(plan.planned[plan.planned.len() - 1].block_id == id);
            }
        }
    }
}

/// A file is pulled as a whole only where the read is of its start and not of all of it, and the file
/// is not too large. Then no more bytes are pulled than imports may still bring, and each block with
/// the checksum and from the nodes that were given for it.
pub proof fn only_a_small_file_is_pulled_from_its_start(
    node: NodeView,
    read_scope_id: u64,
    layout: LayoutView,
    sets: Seq<ReplicaSetView>,
    start: u64,
    length: u64,
    missing: Seq<PullSpecView>,
    at: int,
)
    requires
        node.wf(),
        node.prefetched(read_scope_id, layout, sets, start, length, missing) != missing,
    ensures
        ({
            let planned = node.prefetched(read_scope_id, layout, sets, start, length, missing);
            &&& start == 0
            &&& 0 < length < layout.logical_length <= 536870912
            &&& 0 < planned.len() <= 1024
            &&& 0 <= at < planned.len() ==> exists|i: int|
                #![trigger layout.extents[i]]
                0 <= i < layout.extents.len() && !layout.extents[i].is_hole() && described(
                    sets,
                    layout.extents[i],
                ) == Ok::<PullSpecView, WorkerError>(planned[at])
        }),
{
    lemma_file_plan_described(node, read_scope_id, sets, layout.extents);
    let plan = node.file_plan(read_scope_id, sets, layout.extents);
    if 0 <= at < plan.planned.len() {
        assert(is_described(sets, layout.extents, plan.planned[at]));
    }
}

/// How many bytes the blocks of some extents have together, as far as they were described.
pub open spec fn described_bytes(sets: Seq<ReplicaSetView>, extents: Seq<ExtentView>) -> int
    decreases extents.len(),
{
    if extents.len() == 0 {
        0
    } else {
        described_bytes(sets, extents.drop_last()) + match described(sets, extents.last()) {
            Ok(spec) => spec.expected_length as int,
            Err(_) => 0,
        }
    }
}

/// Whether a block is here or could be pulled for a read.
pub open spec fn can_be_had(
    node: NodeView,
    read_scope_id: u64,
    sets: Seq<ReplicaSetView>,
    extent: ExtentView,
) -> bool {
    node.arena.blocks.contains_key(extent.block_id) || (described(sets, extent) is Ok
        && !node.retirements.blocks_new_reads(extent.block_id, read_scope_id)
        && !node.imports.failures.contains_key(extent.block_id))
}

/// A file of at most half a gibibyte whose blocks can all be had, and fit into what imports may still bring,
/// is pulled as a whole when a part of it is read from its start: every block that the file lacks is
/// pulled.
pub proof fn a_small_file_is_pulled_as_a_whole(
    node: NodeView,
    read_scope_id: u64,
    layout: LayoutView,
    sets: Seq<ReplicaSetView>,
    length: u64,
    missing: Seq<PullSpecView>,
    at: int,
)
    requires
        node.wf(),
        0 < length < layout.logical_length <= 536870912,
        layout.extents.len() <= 1024,
        forall|i: int|
            #![trigger layout.extents[i]]
            0 <= i < layout.extents.len() && !layout.extents[i].is_hole() ==> can_be_had(
                node,
                read_scope_id,
                sets,
                layout.extents[i],
            ),
        described_bytes(sets, layout.extents) <= node.import_room(),
        0 <= at < layout.extents.len(),
        !layout.extents[at].is_hole(),
        !node.arena.blocks.contains_key(layout.extents[at].block_id),
    ensures
        among(
            node.prefetched(read_scope_id, layout, sets, 0, length, missing),
            layout.extents[at].block_id,
        ),
{
    lemma_file_plan_goes_on(node, read_scope_id, sets, layout.extents);
    let plan = node.file_plan(read_scope_id, sets, layout.extents);
    assert(looked_after(node, plan, layout.extents[at]));
}

/// Whether a block of an extent that is not here is planned.
spec fn looked_after(node: NodeView, plan: PrefetchView, extent: ExtentView) -> bool {
    extent.is_hole() || (plan.seen.contains(extent.block_id) && (node.arena.blocks.contains_key(
        extent.block_id,
    ) || among(plan.planned, extent.block_id)))
}

/// Whether every block that was looked at is here or planned.
spec fn seen_are_planned(node: NodeView, plan: PrefetchView) -> bool {
    forall|id: Seq<u8>| #[trigger]
        plan.seen.contains(id) ==> node.arena.blocks.contains_key(id) || among(plan.planned, id)
}

proof fn lemma_file_plan_goes_on(
    node: NodeView,
    read_scope_id: u64,
    sets: Seq<ReplicaSetView>,
    extents: Seq<ExtentView>,
)
    requires
        node.wf(),
        extents.len() <= 1024,
        forall|i: int|
            #![trigger extents[i]]
            0 <= i < extents.len() && !extents[i].is_hole() ==> can_be_had(
                node,
                read_scope_id,
                sets,
                extents[i],
            ),
        described_bytes(sets, extents) <= node.import_room(),
    ensures
        ({
            let plan = node.file_plan(read_scope_id, sets, extents);
            &&& !plan.stopped
            &&& 0 <= plan.bytes <= described_bytes(sets, extents)
            &&& plan.planned.len() <= extents.len()
            &&& seen_are_planned(node, plan)
            &&& forall|i: int|
                #![trigger extents[i]]
                0 <= i < extents.len() ==> looked_after(node, plan, extents[i])
        }),
    decreases extents.len(),
{
    if extents.len() > 0 {
        let rest = extents.drop_last();
        let extent = extents.last();
        assert forall|i: int|
            #![trigger rest[i]]
            0 <= i < rest.len() && !rest[i].is_hole() implies can_be_had(
            node,
            read_scope_id,
            sets,
            rest[i],
        ) by {
            assert(rest[i] == extents[i]);
        }
        lemma_file_plan_goes_on(node, read_scope_id, sets, rest);
        assert(extents[extents.len() - 1] == extent);
        let earlier = node.file_plan(read_scope_id, sets, rest);
        let plan = node.file_plan(read_scope_id, sets, extents);
        assert forall|id: Seq<u8>| among(earlier.planned, id) implies among(plan.planned, id) by {
            let j = choose|j: int|
                #![trigger earlier.planned[j]]
                0 <= j < earlier.planned.len() && earlier.planned[j].block_id == id;
            assert(plan.planned[j].block_id == id);
        }
        if plan.planned.len() > earlier.planned.len() {
            assert(plan.planned[earlier.planned.len() as int].block_id == extent.block_id);
            assert(among(plan.planned, extent.block_id));
        }
        assert(seen_are_planned(node, plan)) by {
            assert forall|id: Seq<u8>| #[trigger]
                plan.seen.contains(id) implies node.arena.blocks.contains_key(id) || among(
                plan.planned,
                id,
            ) by {
                if earlier.seen.contains(id) {
                } else {
                    assert(id == extent.block_id);
                }
            }
        }
        assert forall|i: int|
            #![trigger extents[i]]
            0 <= i < extents.len() implies looked_after(node, plan, extents[i]) by {
            if i < rest.len() {
                assert(rest[i] == extents[i]);
                assert(looked_after(node, earlier, rest[i]));
            }
        }
    }
}

/// What is pulled ahead for a directory is what its files are made of: each block is that of an extent of
/// a file, with the checksum and from the nodes that were given for it, and the file is not larger
/// than the window.
pub proof fn a_directory_prefetch_is_of_its_files(
    node: NodeView,
    read_scope_id: u64,
    files: Seq<ResolvedView>,
    at: int,
)
    requires
        0 <= at < node.directory_plan(read_scope_id, files).planned.len(),
    ensures
        exists|file: int|
            #![trigger files[file]]
            0 <= file < files.len() && files[file].layout is Some
                && files[file].layout->0.logical_length <= 8388608 && is_described(
                files[file].block_replicas,
                files[file].layout->0.extents,
                node.directory_plan(read_scope_id, files).planned[at],
            ),
    decreases files.len(),
{
    if files.len() > 0 {
        let rest = files.drop_last();
        let earlier = node.directory_plan(read_scope_id, rest);
        let plan = node.directory_plan(read_scope_id, files);
        let last = files[files.len() - 1];
        if last.layout is Some {
            lemma_directory_steps_described(
                node,
                read_scope_id,
                last.block_replicas,
                earlier,
                last.layout->0.extents,
                at,
            );
        }
        if at < earlier.planned.len() {
            a_directory_prefetch_is_of_its_files(node, read_scope_id, rest, at);
            let file = choose|file: int|
                #![trigger rest[file]]
                0 <= file < rest.len() && rest[file].layout is Some
                    && rest[file].layout->0.logical_length <= 8388608 && is_described(
                    rest[file].block_replicas,
                    rest[file].layout->0.extents,
                    earlier.planned[at],
                );
            assert(files[file] == rest[file]);
        }
    }
}

proof fn lemma_directory_steps_described(
    node: NodeView,
    read_scope_id: u64,
    sets: Seq<ReplicaSetView>,
    plan: PrefetchView,
    extents: Seq<ExtentView>,
    at: int,
)
    ensures
        ({
            let next = node.directory_steps(read_scope_id, sets, plan, extents);
            &&& plan.planned.len() <= next.planned.len()
            &&& 0 <= at < plan.planned.len() ==> next.planned[at] == plan.planned[at]
            &&& plan.planned.len() <= at < next.planned.len() ==> is_described(
                sets,
                extents,
                next.planned[at],
            )
        }),
    decreases extents.len(),
{
    if extents.len() > 0 {
        let rest = extents.drop_last();
        lemma_directory_steps_described(node, read_scope_id, sets, plan, rest, at);
        let earlier = node.directory_steps(read_scope_id, sets, plan, rest);
        let next = node.directory_steps(read_scope_id, sets, plan, extents);
        if plan.planned.len() <= at < next.planned.len() {
            if at < earlier.planned.len() {
                assert(is_described(sets, rest, earlier.planned[at]));
                let i = choose|i: int|
                    #![trigger rest[i]]
                    0 <= i < rest.len() && !rest[i].is_hole() && described(sets, rest[i]) == Ok::<
                        PullSpecView,
                        WorkerError,
                    >(earlier.planned[at]);
                assert(extents[i] == rest[i]);
            } else {
                assert(extents[extents.len() - 1] == extents.last());
            }
        }
    }
}

/// Whether a missing block is that of an extent, as it was described.
pub open spec fn is_described(
    sets: Seq<ReplicaSetView>,
    extents: Seq<ExtentView>,
    spec: PullSpecView,
) -> bool {
    exists|i: int|
        #![trigger extents[i]]
        0 <= i < extents.len() && !extents[i].is_hole() && described(sets, extents[i]) == Ok::<
            PullSpecView,
            WorkerError,
        >(spec)
}

proof fn lemma_file_plan_described(
    node: NodeView,
    read_scope_id: u64,
    sets: Seq<ReplicaSetView>,
    extents: Seq<ExtentView>,
)
    ensures
        ({
            let plan = node.file_plan(read_scope_id, sets, extents);
            &&& plan.planned.len() <= PEER_PULL_PLAN_BLOCKS_MAX
            &&& forall|j: int|
                #![trigger plan.planned[j]]
                0 <= j < plan.planned.len() ==> is_described(sets, extents, plan.planned[j])
        }),
    decreases extents.len(),
{
    if extents.len() > 0 {
        let rest = extents.drop_last();
        lemma_file_plan_described(node, read_scope_id, sets, rest);
        let earlier = node.file_plan(read_scope_id, sets, rest);
        let plan = node.file_plan(read_scope_id, sets, extents);
        assert forall|j: int| #![trigger plan.planned[j]] 0 <= j < plan.planned.len() implies is_described(
            sets,
            extents,
            plan.planned[j],
        ) by {
            if j < earlier.planned.len() {
                assert(plan.planned[j] == earlier.planned[j]);
                assert(is_described(sets, rest, earlier.planned[j]));
                let i = choose|i: int|
                    #![trigger rest[i]]
                    0 <= i < rest.len() && !rest[i].is_hole() && described(sets, rest[i]) == Ok::<
                        PullSpecView,
                        WorkerError,
                    >(earlier.planned[j]);
                assert(extents[i] == rest[i]);
            } else {
                assert(extents[extents.len() - 1] == extents.last());
            }
        }
    }
}

/// A file that is pulled as a whole is pulled as a whole: the plan holds every block that the
/// file lacks, each once, and no block that is here.
pub proof fn a_file_prefetch_holds_all_that_the_file_lacks(
    node: NodeView,
    read_scope_id: u64,
    layout: LayoutView,
    sets: Seq<ReplicaSetView>,
    start: u64,
    length: u64,
    missing: Seq<PullSpecView>,
    extent: int,
)
    requires
        node.prefetched(read_scope_id, layout, sets, start, length, missing) != missing,
        0 <= extent < layout.extents.len(),
        !layout.extents[extent].is_hole(),
    ensures
        ({
            let planned = node.prefetched(read_scope_id, layout, sets, start, length, missing);
            &&& each_once(planned)
            &&& node.arena.blocks.contains_key(layout.extents[extent].block_id)
                <==> !crate::read_plan::among(planned, layout.extents[extent].block_id)
        }),
{
    lemma_file_plan_once(node, read_scope_id, sets, layout.extents);
}

impl NodeState {
    /// What is pulled where a read of a file lacks some blocks.
    pub fn expand_filesystem_peer_prefetch(
        &self,
        read_scope_id: u64,
        layout: &VersionLayout,
        block_replicas: &Vec<BlockReplicaSet>,
        requested: (u64, u64),
        requested_missing: Vec<PeerPullSpec>,
    ) -> (specs: Vec<PeerPullSpec>)
        requires
            self@.wf(),
        ensures
            views(specs@) == self@.prefetched(
                read_scope_id,
                layout@,
                views(block_replicas@),
                requested.0,
                requested.1,
                views(requested_missing@),
            ),
    {
        let (start, length): (u64, u64) = requested;
        if start != 0 || length == 0 || length >= layout.logical_length || layout.logical_length
            > FILESYSTEM_PEER_PREFETCH_BYTES_MAX || layout.extents.len()
            > PEER_PULL_PLAN_BLOCKS_MAX {
            return requested_missing;
        }
        let ghost sets = views(block_replicas@);
        let ghost extents = layout@.extents;
        let available_budget: u64 = self.imports.byte_limit - self.imports.bytes;
        let mut planned_bytes: u64 = 0;
        let mut seen: KeySet<Vec<u8>> = KeySet::new();
        let mut planned: Vec<PeerPullSpec> = Vec::new();
        let mut i: usize = 0;
        assert(extents.take(0) =~= Seq::empty());
        assert(views(planned@) =~= Seq::empty());
        while i < layout.extents.len()
            invariant
                i <= layout.extents@.len(),
                self@.wf(),
                sets == views(block_replicas@),
                extents == views(layout.extents@),
                available_budget == self@.import_room(),
                planned_bytes <= available_budget,
                self@.file_plan(read_scope_id, sets, extents.take(i as int)) == (PrefetchView {
                    seen: seen@,
                    bytes: planned_bytes as int,
                    planned: views(planned@),
                    stopped: false,
                }),
                layout@.extents == extents,
                !(requested.0 != 0 || requested.1 == 0 || requested.1 >= layout.logical_length
                    || layout.logical_length > FILESYSTEM_PEER_PREFETCH_BYTES_MAX
                    || layout.extents@.len() > PEER_PULL_PLAN_BLOCKS_MAX),
            decreases layout.extents.len() - i,
        {
            let ghost plan = self@.file_plan(read_scope_id, sets, extents.take(i as int));
            let extent: &ExtentRecord = &layout.extents[i];
            proof {
                lemma_views_take(layout.extents@, i as int);
                assert(self@.file_plan(read_scope_id, sets, extents.take(i + 1)) == self@.file_step(
                    read_scope_id,
                    sets,
                    plan,
                    extent@,
                ));
                if self@.file_step(read_scope_id, sets, plan, extent@).stopped {
                    lemma_file_stop_stays(self@, read_scope_id, sets, extents, i + 1);
                }
            }
            i = i + 1;
            if is_hole(extent) || seen.contains(&extent.block_id) {
                continue ;
            }
            if self.arena.block_length_and_digest(&extent.block_id).is_some() {
                seen.insert(copy_bytes(&extent.block_id));
                continue ;
            }
            if self.retirements.retirement_blocks_new_reads(&extent.block_id, read_scope_id)
                || self.imports.failures.contains(&extent.block_id) {
                return requested_missing;
            }
            let spec = match describe_missing_block(block_replicas, extent) {
                Ok(spec) => spec,
                Err(_) => return requested_missing,
            };
            let charge: u64 = if self.imports.flights.contains(&extent.block_id) {
                0
            } else {
                spec.expected_length
            };
            if charge > available_budget - planned_bytes || planned.len()
                >= PEER_PULL_PLAN_BLOCKS_MAX {
                return requested_missing;
            }
            planned_bytes = planned_bytes + charge;
            seen.insert(copy_bytes(&extent.block_id));
            proof {
                lemma_views_push(planned@, spec);
            }
            planned.push(spec);
        }
        assert(extents.take(i as int) =~= extents);
        if planned.len() == 0 {
            requested_missing
        } else {
            planned
        }
    }

    /// What is pulled ahead for the files of a directory.
    pub fn plan_filesystem_directory_prefetch(
        &self,
        read_scope_id: u64,
        objects: &Vec<ResolveObjectResponse>,
    ) -> (planned: Vec<PeerPullSpec>)
        requires
            self@.wf(),
        ensures
            views(planned@) == self@.directory_plan(read_scope_id, views(objects@)).planned,
    {
        let ghost files = views(objects@);
        let room: u64 = self.imports.byte_limit - self.imports.bytes;
        let available_budget: u64 = if room < FILESYSTEM_DIRECTORY_PREFETCH_BYTES_MAX {
            room
        } else {
            FILESYSTEM_DIRECTORY_PREFETCH_BYTES_MAX
        };
        let mut planned_bytes: u64 = 0;
        let mut seen: KeySet<Vec<u8>> = KeySet::new();
        let mut planned: Vec<PeerPullSpec> = Vec::new();
        let mut stopped: bool = false;
        let mut i: usize = 0;
        assert(files.take(0) =~= Seq::empty());
        assert(views(planned@) =~= Seq::empty());
        while i < objects.len()
            invariant
                i <= objects@.len(),
                self@.wf(),
                files == views(objects@),
                available_budget == self@.directory_room(),
                planned_bytes <= available_budget,
                self@.directory_plan(read_scope_id, files.take(i as int)) == (PrefetchView {
                    seen: seen@,
                    bytes: planned_bytes as int,
                    planned: views(planned@),
                    stopped,
                }),
            decreases objects.len() - i,
        {
            let ghost plan = self@.directory_plan(read_scope_id, files.take(i as int));
            proof {
                lemma_views_take(objects@, i as int);
            }
            let object: &ResolveObjectResponse = &objects[i];
            i = i + 1;
            let layout: &VersionLayout = match &object.layout {
                Some(layout) => layout,
                None => continue ,
            };
            if validate(layout.logical_length, &layout.extents).is_err() || layout.logical_length
                > FILESYSTEM_DIRECTORY_PREFETCH_BYTES_MAX {
                continue ;
            }
            let ghost sets = views(object.block_replicas@);
            let ghost extents = layout@.extents;
            assert(extents.take(0) =~= Seq::empty());
            let mut k: usize = 0;
            while k < layout.extents.len()
                invariant
                    k <= layout.extents@.len(),
                    self@.wf(),
                    sets == views(object.block_replicas@),
                    extents == views(layout.extents@),
                    available_budget == self@.directory_room(),
                    planned_bytes <= available_budget,
                    self@.directory_steps(read_scope_id, sets, plan, extents.take(k as int)) == (
                    PrefetchView {
                        seen: seen@,
                        bytes: planned_bytes as int,
                        planned: views(planned@),
                        stopped,
                    }),
                decreases layout.extents.len() - k,
            {
                let extent: &ExtentRecord = &layout.extents[k];
                proof {
                    lemma_views_take(layout.extents@, k as int);
                }
                k = k + 1;
                if stopped || is_hole(extent) || seen.contains(&extent.block_id) {
                    continue ;
                }
                if self.arena.block_length_and_digest(&extent.block_id).is_some()
                    || self.retirements.retirement_blocks_new_reads(&extent.block_id, read_scope_id)
                    || self.imports.failures.contains(&extent.block_id) {
                    seen.insert(copy_bytes(&extent.block_id));
                    continue ;
                }
                let spec = match describe_missing_block(&object.block_replicas, extent) {
                    Ok(spec) => spec,
                    Err(_) => {
                        seen.insert(copy_bytes(&extent.block_id));
                        continue ;
                    },
                };
                if spec.expected_length > available_budget - planned_bytes || planned.len()
                    >= FILESYSTEM_DIRECTORY_PREFETCH_BLOCKS_MAX {
                    stopped = true;
                    continue ;
                }
                planned_bytes = planned_bytes + spec.expected_length;
                seen.insert(copy_bytes(&extent.block_id));
                proof {
                    lemma_views_push(planned@, spec);
                }
                planned.push(spec);
            }
            assert(extents.take(k as int) =~= extents);
        }
        assert(files.take(i as int) =~= files);
        planned
    }
}

proof fn lemma_file_stop_stays(
    node: NodeView,
    read_scope_id: u64,
    sets: Seq<ReplicaSetView>,
    extents: Seq<ExtentView>,
    n: int,
)
    requires
        0 <= n <= extents.len(),
        node.file_plan(read_scope_id, sets, extents.take(n)).stopped,
    ensures
        node.file_plan(read_scope_id, sets, extents).stopped,
    decreases extents.len() - n,
{
    if n < extents.len() {
        assert(extents.take(n + 1).drop_last() =~= extents.take(n));
        lemma_file_stop_stays(node, read_scope_id, sets, extents, n + 1);
    } else {
        assert(extents.take(n) =~= extents);
    }
}

} // verus!
