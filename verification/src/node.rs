//! The state of the node. One task owns it and applies one request after the other.
use crate::arena::{Arena, ArenaReadTicket};
#[allow(unused_imports)]
use crate::arena::ArenaView;
use crate::bytes::copy_bytes;
#[allow(unused_imports)]
use crate::bytes::views;
use crate::current_cache::CurrentCache;
#[allow(unused_imports)]
use crate::current_cache::CacheView;
#[allow(unused_imports)]
use crate::error::WorkerError;
use crate::inode_reference::InodeReferences;
#[allow(unused_imports)]
use crate::inode_reference::ReferencesView;
use crate::peer_import::Imports;
#[allow(unused_imports)]
use crate::peer_import::ImportsView;
use crate::replica_transfer::Replicas;
#[allow(unused_imports)]
use crate::replica_transfer::{transfers_wf, TransferView};
use crate::retirement::{PendingRetirement, Retirements};
#[allow(unused_imports)]
use crate::retirement::{
    lemma_remembered, remembered_all, RetirementReply, RetirementView, RetirementsView,
    COMPLETED_RETIREMENT_CACHE_LIMIT,
};
use crate::session::{ActiveReadView, Session, Sessions};
#[allow(unused_imports)]
use crate::session::{each, ActiveReadValue, SessionView, SessionsView};
use crate::table::{KeySet, Table};
#[allow(unused_imports)]
use crate::table::{keys_are, lemma_keys_list, lists};
use vstd::prelude::*;

verus! {

/// The right to download a slice of a block once.
#[derive(Clone, Copy, Debug, PartialEq, Eq, Structural)]
pub struct DownloadTicket {
    pub read: ArenaReadTicket,
    pub session_id: u64,
    pub read_request_id: u64,
    pub expires_at: u64,
}

impl View for DownloadTicket {
    type V = DownloadTicket;

    open spec fn view(&self) -> DownloadTicket {
        *self
    }
}

/// The state of the node.
pub struct NodeState {
    pub node_id: String,
    /// Whether there is a metadata service to ask.
    pub has_metadata: bool,
    pub sessions: Sessions,
    pub arena: Arena,
    pub current_cache: CurrentCache,
    pub imports: Imports,
    pub retirements: Retirements,
    pub next_read_scope: u64,
    pub active_read_scopes: KeySet<u64>,
    pub next_transfer: u64,
    pub downloads: Table<u64, DownloadTicket>,
    pub replicas: Replicas,
    /// The blocks that are being published, and whether the node stored them for that.
    pub pending_blocks: Table<Vec<u8>, bool>,
    pub references: InodeReferences,
    pub metadata_lease_until: u64,
    pub metadata_watch_connected: bool,
    pub client_cache_lease_ttl: u64,
    /// The version of the settings. It begins with one.
    pub config_version: u64,
}

/// The state of the node, as a value.
#[verifier::ext_equal]
pub struct NodeView {
    pub node_id: Seq<char>,
    pub has_metadata: bool,
    pub sessions: SessionsView,
    pub arena: ArenaView,
    pub cache: CacheView,
    pub imports: ImportsView,
    pub retirements: RetirementsView,
    pub next_read_scope: u64,
    pub scopes: Set<u64>,
    pub next_transfer: u64,
    pub downloads: Map<u64, DownloadTicket>,
    pub replicas: Map<Seq<u8>, TransferView>,
    pub pending_blocks: Map<Seq<u8>, bool>,
    pub references: ReferencesView,
    pub metadata_lease_until: u64,
    pub metadata_watch_connected: bool,
    pub client_cache_lease_ttl: u64,
    pub config_version: u64,
}

impl View for NodeState {
    type V = NodeView;

    open spec fn view(&self) -> NodeView {
        NodeView {
            node_id: self.node_id@,
            has_metadata: self.has_metadata,
            sessions: self.sessions@,
            arena: self.arena@,
            cache: self.current_cache@,
            imports: self.imports@,
            retirements: self.retirements@,
            next_read_scope: self.next_read_scope,
            scopes: self.active_read_scopes@,
            next_transfer: self.next_transfer,
            downloads: self.downloads@,
            replicas: self.replicas@,
            pending_blocks: self.pending_blocks@,
            references: self.references@,
            metadata_lease_until: self.metadata_lease_until,
            metadata_watch_connected: self.metadata_watch_connected,
            client_cache_lease_ttl: self.client_cache_lease_ttl,
            config_version: self.config_version,
        }
    }
}

/// The names of the blocks of some retirements, in their order.
pub open spec fn blocks_of(pending: Map<Seq<u8>, RetirementView>, ids: Seq<Seq<u8>>) -> Seq<Seq<u8>>
    decreases ids.len(),
{
    if ids.len() == 0 {
        Seq::empty()
    } else {
        blocks_of(pending, ids.drop_last()) + pending[ids.last()].block_ids
    }
}

/// Who waits for some retirements to be prepared, in their order.
pub open spec fn prepare_waiters_of(
    pending: Map<Seq<u8>, RetirementView>,
    ids: Seq<Seq<u8>>,
) -> Seq<u64>
    decreases ids.len(),
{
    if ids.len() == 0 {
        Seq::empty()
    } else {
        prepare_waiters_of(pending, ids.drop_last()) + pending[ids.last()].prepare_waiters
    }
}

/// Who waits for some retirements to end, in their order.
pub open spec fn final_waiters_of(
    pending: Map<Seq<u8>, RetirementView>,
    ids: Seq<Seq<u8>>,
) -> Seq<u64>
    decreases ids.len(),
{
    if ids.len() == 0 {
        Seq::empty()
    } else {
        final_waiters_of(pending, ids.drop_last()) + pending[ids.last()].prepare_waiters
            + pending[ids.last()].final_waiters
    }
}

impl NodeView {
    /// What is true of the node at any time.
    pub open spec fn wf(self) -> bool {
        &&& self.sessions.wf()
        &&& self.arena.wf()
        &&& self.cache.wf()
        &&& self.imports.wf()
        &&& transfers_wf(self.replicas)
        &&& scopes_wf(self.scopes, self.next_read_scope)
        &&& downloads_wf(self.downloads, self.next_transfer)
        &&& self.retirements.wf()
        &&& retirements_wf(
            self.retirements.pending,
            self.scopes,
            self.imports,
            self.next_read_scope,
        )
    }

    /// Whether every read and every import that began up to some scope has ended.
    pub open spec fn drained(self, cutoff: u64) -> bool {
        reads_drained(self.scopes, self.imports, cutoff)
    }

    /// Whether somebody may still download or look at a piece of memory.
    pub open spec fn borrowed(self, allocation_id: u64) -> bool {
        ||| exists|id: u64| #[trigger]
            self.downloads.contains_key(id) && self.downloads[id].read.handle.allocation_id
                == allocation_id
        ||| exists|id: u64| #[trigger]
            self.sessions.sessions.contains_key(id) && viewed(
                self.sessions.sessions[id],
                allocation_id,
            )
    }

    /// Whether nobody needs the memory of some blocks any more.
    pub open spec fn can_release(self, block_ids: Seq<Seq<u8>>) -> bool {
        forall|i: int|
            #![trigger block_ids[i]]
            0 <= i < block_ids.len() && self.arena.blocks.contains_key(block_ids[i])
                ==> !self.borrowed(self.arena.blocks[block_ids[i]].allocation_id)
                && !self.arena.has_writer(block_ids[i])
    }

    /// Whether a retirement can be prepared now.
    pub open spec fn ready_to_prepare(self, retirement: RetirementView) -> bool {
        !retirement.prepared && self.drained(retirement.cutoff_scope)
    }

    /// The retirements whose reads have ended now.
    pub open spec fn now_prepared(self) -> Set<Seq<u8>> {
        Set::new(
            |id: Seq<u8>|
                self.retirements.pending.contains_key(id) && self.ready_to_prepare(
                    self.retirements.pending[id],
                ),
        )
    }

    /// The retirements under way, with those prepared whose reads have ended.
    pub open spec fn pending_after(self) -> Map<Seq<u8>, RetirementView> {
        each(
            self.retirements.pending,
            |id: Seq<u8>, retirement: RetirementView|
                if self.ready_to_prepare(retirement) {
                    RetirementView { prepared: true, prepare_waiters: Seq::empty(), ..retirement }
                } else {
                    retirement
                },
        )
    }

    /// Whether a retirement can end now.
    pub open spec fn ready_to_end(self, retirement: RetirementView) -> bool {
        retirement.prepared && retirement.final_requested && self.can_release(retirement.block_ids)
    }

    /// The retirements that end now.
    pub open spec fn now_ended(self) -> Set<Seq<u8>> {
        Set::new(
            |id: Seq<u8>|
                self.pending_after().contains_key(id) && self.ready_to_end(
                    self.pending_after()[id],
                ),
        )
    }

    /// The state after the retirements went as far as they can, where the ended ones are taken
    /// in the order given.
    pub open spec fn with_retirements(self, ended: Seq<Seq<u8>>) -> NodeView {
        NodeView {
            imports: self.imports.pruned(self.scopes),
            arena: self.arena.retired_all(blocks_of(self.pending_after(), ended)),
            retirements: RetirementsView {
                pending: self.pending_after().remove_keys(ended.to_set()),
                completed: remembered_all(self.retirements.completed, ended),
                retiring: self.retirements.retiring.difference(
                    blocks_of(self.pending_after(), ended).to_set(),
                ),
            },
            ..self
        }
    }

    /// Whether `next` is the state after the retirements went as far as they can, and the
    /// waiters are those whose phase is over, each once.
    pub open spec fn advanced(self, next: NodeView, waiters: Seq<u64>) -> bool {
        exists|prepared: Seq<Seq<u8>>, ended: Seq<Seq<u8>>|
            #![trigger lists(prepared, self.now_prepared()), lists(ended, self.now_ended())]
            lists(prepared, self.now_prepared()) && lists(ended, self.now_ended()) && next
                == self.with_retirements(ended) && waiters == prepare_waiters_of(
                self.retirements.pending,
                prepared,
            ) + final_waiters_of(self.pending_after(), ended)
    }
}

proof fn lemma_retired_all(arena: ArenaView, block_ids: Seq<Seq<u8>>, block_id: Seq<u8>)
    requires
        arena.blocks.contains_key(block_id),
        !arena.retired_all(block_ids).blocks.contains_key(block_id),
    ensures
        block_ids.contains(block_id),
    decreases block_ids.len(),
{
    if block_ids.len() > 0 {
        if block_ids.last() == block_id {
            assert(block_ids[block_ids.len() - 1] == block_id);
        } else {
            lemma_retired_all(arena, block_ids.drop_last(), block_id);
            let i = choose|i: int|
                #![trigger block_ids.drop_last()[i]]
                0 <= i < block_ids.len() - 1 && block_ids.drop_last()[i] == block_id;
            assert(block_ids[i] == block_id);
        }
    }
}

pub(crate) proof fn lemma_blocks_of(
    pending: Map<Seq<u8>, RetirementView>,
    ids: Seq<Seq<u8>>,
    block_id: Seq<u8>,
) -> (at: (int, int))
    requires
        blocks_of(pending, ids).contains(block_id),
    ensures
        0 <= at.0 < ids.len(),
        0 <= at.1 < pending[ids[at.0]].block_ids.len(),
        pending[ids[at.0]].block_ids[at.1] == block_id,
    decreases ids.len(),
{
    let all = blocks_of(pending, ids);
    let i = choose|i: int| #![trigger all[i]] 0 <= i < all.len() && all[i] == block_id;
    let earlier = blocks_of(pending, ids.drop_last());
    if i < earlier.len() {
        assert(earlier[i] == block_id);
        lemma_blocks_of(pending, ids.drop_last(), block_id)
    } else {
        assert(pending[ids.last()].block_ids[i - earlier.len()] == block_id);
        (ids.len() - 1, i - earlier.len())
    }
}

/// No block goes while somebody may still download it, look at it or write to it. It goes only in
/// a retirement that was asked for to the end, after every read that began before the retirement
/// has ended.
pub proof fn memory_in_use_is_not_retired(
    before: NodeView,
    after: NodeView,
    waiters: Seq<u64>,
    block_id: Seq<u8>,
)
    requires
        before.wf(),
        before.advanced(after, waiters),
        before.arena.blocks.contains_key(block_id),
        !after.arena.blocks.contains_key(block_id),
    ensures
        !before.borrowed(before.arena.blocks[block_id].allocation_id),
        !before.arena.has_writer(block_id),
        exists|id: Seq<u8>| #[trigger]
            before.retirements.pending.contains_key(id)
                && before.retirements.pending[id].block_ids.contains(block_id)
                && before.retirements.pending[id].final_requested && before.drained(
                before.retirements.pending[id].cutoff_scope,
            ),
{
    let (prepared, ended) = choose|prepared: Seq<Seq<u8>>, ended: Seq<Seq<u8>>|
        #![trigger lists(prepared, before.now_prepared()), lists(ended, before.now_ended())]
        lists(prepared, before.now_prepared()) && lists(ended, before.now_ended()) && after
            == before.with_retirements(ended) && waiters == prepare_waiters_of(
            before.retirements.pending,
            prepared,
        ) + final_waiters_of(before.pending_after(), ended);
    lemma_retired_all(before.arena, blocks_of(before.pending_after(), ended), block_id);
    let (i, j) = lemma_blocks_of(before.pending_after(), ended, block_id);
    let id = ended[i];
    assert(ended.contains(id));
    assert(before.now_ended().contains(id));
    let retirement = before.pending_after()[id];
    assert(before.ready_to_end(retirement));
    assert(retirement.block_ids[j] == block_id);
    assert(before.retirements.pending.contains_key(id));
    assert(before.retirements.pending[id].block_ids[j] == block_id);
}

/// A block goes only when no download is of its memory, no session looks at it, nobody may write to it
/// through a mapping, every read under way began after the retirement was asked for, and so did the
/// read of every import that is under way.
pub proof fn a_block_goes_only_when_nothing_uses_it(
    before: NodeView,
    after: NodeView,
    waiters: Seq<u64>,
    block_id: Seq<u8>,
    download_id: u64,
    session_id: u64,
    epoch: u64,
    scope: u64,
    importing: Seq<u8>,
)
    requires
        before.wf(),
        before.advanced(after, waiters),
        before.arena.blocks.contains_key(block_id),
        !after.arena.blocks.contains_key(block_id),
    ensures
        ({
            let memory = before.arena.blocks[block_id].allocation_id;
            &&& before.arena.blocks[block_id].writer is None
            &&& before.downloads.contains_key(download_id)
                ==> before.downloads[download_id].read.handle.allocation_id != memory
            &&& before.sessions.sessions.contains_key(session_id)
                && before.sessions.sessions[session_id].active_views.contains_key(epoch)
                ==> !before.sessions.sessions[session_id].active_views[epoch].allocation_ids.contains(
                memory,
            )
            &&& exists|id: Seq<u8>| #[trigger]
                before.retirements.pending.contains_key(id)
                    && before.retirements.pending[id].block_ids.contains(block_id)
                    && before.retirements.pending[id].final_requested && (before.scopes.contains(
                    scope,
                ) ==> scope > before.retirements.pending[id].cutoff_scope) && (
                before.imports.flights.contains_key(importing)
                    ==> before.imports.flights[importing].read_scope_id
                    > before.retirements.pending[id].cutoff_scope)
        }),
{
    memory_in_use_is_not_retired(before, after, waiters, block_id);
    let memory = before.arena.blocks[block_id].allocation_id;
    if before.sessions.sessions.contains_key(session_id)
        && before.sessions.sessions[session_id].active_views.contains_key(epoch)
        && before.sessions.sessions[session_id].active_views[epoch].allocation_ids.contains(
        memory,
    ) {
        assert(viewed(before.sessions.sessions[session_id], memory));
    }
}

proof fn lemma_final_waiters(
    pending: Map<Seq<u8>, RetirementView>,
    ids: Seq<Seq<u8>>,
    i: int,
    waiter: u64,
)
    requires
        0 <= i < ids.len(),
        pending[ids[i]].final_waiters.contains(waiter),
    ensures
        final_waiters_of(pending, ids).contains(waiter),
    decreases ids.len(),
{
    let earlier = final_waiters_of(pending, ids.drop_last());
    let prepare = pending[ids.last()].prepare_waiters;
    let ending = pending[ids.last()].final_waiters;
    let all = final_waiters_of(pending, ids);
    if i == ids.len() - 1 {
        let j = choose|j: int| 0 <= j < ending.len() && ending[j] == waiter;
        assert(all[earlier.len() + prepare.len() + j] == waiter);
    } else {
        lemma_final_waiters(pending, ids.drop_last(), i, waiter);
        let j = choose|j: int| 0 <= j < earlier.len() && earlier[j] == waiter;
        assert(all[j] == waiter);
    }
}

/// A retirement that was asked for to the end ends as soon as every read and every import that
/// began before it has ended and nobody downloads its blocks, looks at them or writes to them, and
/// not before. Then its blocks are gone, and whoever waited for its end is told. While it is under
/// way its name does not stand for other blocks; after it has ended whoever asks for it is told at
/// once, unless more retirements ended with it than are remembered.
pub proof fn a_retirement_ends_once_nobody_needs_its_blocks(
    node: NodeView,
    next: NodeView,
    waiters: Seq<u64>,
    id: Seq<u8>,
    other_blocks: Seq<Seq<u8>>,
    waiter: u64,
    cutoff: u64,
)
    requires
        node.wf(),
        node.advanced(next, waiters),
        node.retirements.pending.contains_key(id),
    ensures
        ({
            let retirement = node.retirements.pending[id];
            let over = retirement.final_requested && node.drained(retirement.cutoff_scope)
                && node.can_release(retirement.block_ids);
            &&& next.retirements.pending.contains_key(id) <==> !over
            &&& !over ==> {
                &&& next.retirements.pending[id].block_ids == retirement.block_ids
                &&& other_blocks != retirement.block_ids
                    ==> next.retirements.prepare_asked(id, other_blocks, waiter, cutoff).1
                    == RetirementReply::Failed(WorkerError::Conflict) && next.retirements.final_asked(
                    id,
                    other_blocks,
                    waiter,
                    cutoff,
                ).1 == RetirementReply::Failed(WorkerError::Conflict)
            }
            &&& over ==> {
                &&& forall|i: int|
                    #![trigger retirement.block_ids[i]]
                    0 <= i < retirement.block_ids.len() ==> !next.arena.blocks.contains_key(
                        retirement.block_ids[i],
                    ) && !next.retirements.retiring.contains(retirement.block_ids[i])
                &&& forall|told: u64| #[trigger]
                    retirement.final_waiters.contains(told) ==> waiters.contains(told)
                &&& node.now_ended().len() <= 1024 && id.len() > 0
                    && other_blocks.len() > 0 ==> next.retirements.early_reply(id, other_blocks)
                    == Some(RetirementReply::Done)
            }
        }),
{
    let (prepared, ended) = choose|prepared: Seq<Seq<u8>>, ended: Seq<Seq<u8>>|
        #![trigger lists(prepared, node.now_prepared()), lists(ended, node.now_ended())]
        lists(prepared, node.now_prepared()) && lists(ended, node.now_ended()) && next
            == node.with_retirements(ended) && waiters == prepare_waiters_of(
            node.retirements.pending,
            prepared,
        ) + final_waiters_of(node.pending_after(), ended);
    let retirement = node.retirements.pending[id];
    let marked = node.pending_after()[id];
    let over = retirement.final_requested && node.drained(retirement.cutoff_scope)
        && node.can_release(retirement.block_ids);
    assert(node.now_ended().contains(id) == over);
    assert(ended.to_set().contains(id) == over);
    if over {
        let at = choose|at: int| 0 <= at < ended.len() && ended[at] == id;
        let gone = blocks_of(node.pending_after(), ended);
        assert forall|i: int|
            #![trigger retirement.block_ids[i]]
            0 <= i < retirement.block_ids.len() implies !next.arena.blocks.contains_key(
            retirement.block_ids[i],
        ) && !next.retirements.retiring.contains(retirement.block_ids[i]) by {
            lemma_block_among(node.pending_after(), ended, at, i);
            lemma_retired_gone(node.arena, gone, retirement.block_ids[i]);
        }
        assert forall|told: u64| #[trigger] retirement.final_waiters.contains(
            told,
        ) implies waiters.contains(told) by {
            lemma_final_waiters(node.pending_after(), ended, at, told);
            let later = final_waiters_of(node.pending_after(), ended);
            let earlier = prepare_waiters_of(node.retirements.pending, prepared);
            let j = choose|j: int| 0 <= j < later.len() && later[j] == told;
            assert(waiters[earlier.len() + j] == told);
        }
        if node.now_ended().len() <= COMPLETED_RETIREMENT_CACHE_LIMIT {
            ended.unique_seq_to_set();
            lemma_remembered(node.retirements.completed, ended, id);
        }
    }
}

/// A retirement is prepared as soon as every read and every import that began before it has ended, and
/// then whoever waited for that is told, whether or not it also ends. Until then nothing of it changes.
pub proof fn whoever_waits_for_a_preparation_is_told(
    node: NodeView,
    next: NodeView,
    waiters: Seq<u64>,
    id: Seq<u8>,
    waiter: u64,
    scope: u64,
)
    requires
        node.wf(),
        node.advanced(next, waiters),
        node.retirements.pending.contains_key(id),
        !node.retirements.pending[id].prepared,
    ensures
        ({
            let retirement = node.retirements.pending[id];
            let ready = reads_drained(node.scopes, node.imports, retirement.cutoff_scope);
            &&& node.scopes.contains(scope) && scope <= retirement.cutoff_scope ==> !ready
            &&& !ready ==> next.retirements.pending.contains_key(id)
                && next.retirements.pending[id] == retirement
            &&& ready && retirement.prepare_waiters.contains(waiter) ==> waiters.contains(waiter)
            &&& ready && next.retirements.pending.contains_key(id)
                ==> next.retirements.pending[id].prepared
                && next.retirements.pending[id].prepare_waiters.len() == 0
                && next.retirements.pending[id].block_ids == retirement.block_ids
                && next.retirements.pending[id].final_waiters == retirement.final_waiters
                && next.retirements.pending[id].final_requested == retirement.final_requested
        }),
{
    let (prepared, ended) = choose|prepared: Seq<Seq<u8>>, ended: Seq<Seq<u8>>|
        #![trigger lists(prepared, node.now_prepared()), lists(ended, node.now_ended())]
        lists(prepared, node.now_prepared()) && lists(ended, node.now_ended()) && next
            == node.with_retirements(ended) && waiters == prepare_waiters_of(
            node.retirements.pending,
            prepared,
        ) + final_waiters_of(node.pending_after(), ended);
    let retirement = node.retirements.pending[id];
    let ready = reads_drained(node.scopes, node.imports, retirement.cutoff_scope);
    if !ready {
        assert(!node.now_ended().contains(id));
        assert(!ended.to_set().contains(id));
    } else {
        assert(node.now_prepared().contains(id));
        let at = choose|at: int| 0 <= at < prepared.len() && prepared[at] == id;
        if retirement.prepare_waiters.contains(waiter) {
            lemma_prepare_waiters(node.retirements.pending, prepared, at, waiter);
            let early = prepare_waiters_of(node.retirements.pending, prepared);
            let j = choose|j: int| 0 <= j < early.len() && early[j] == waiter;
            assert(waiters[j] == waiter);
        }
    }
}

proof fn lemma_prepare_waiters(
    pending: Map<Seq<u8>, RetirementView>,
    ids: Seq<Seq<u8>>,
    i: int,
    waiter: u64,
)
    requires
        0 <= i < ids.len(),
        pending[ids[i]].prepare_waiters.contains(waiter),
    ensures
        prepare_waiters_of(pending, ids).contains(waiter),
    decreases ids.len(),
{
    let earlier = prepare_waiters_of(pending, ids.drop_last());
    let last = pending[ids.last()].prepare_waiters;
    let all = prepare_waiters_of(pending, ids);
    if i == ids.len() - 1 {
        let j = choose|j: int| 0 <= j < last.len() && last[j] == waiter;
        assert(all[earlier.len() + j] == waiter);
    } else {
        lemma_prepare_waiters(pending, ids.drop_last(), i, waiter);
        let j = choose|j: int| 0 <= j < earlier.len() && earlier[j] == waiter;
        assert(all[j] == waiter);
    }
}

proof fn lemma_block_among(
    pending: Map<Seq<u8>, RetirementView>,
    ids: Seq<Seq<u8>>,
    at: int,
    i: int,
)
    requires
        0 <= at < ids.len(),
        0 <= i < pending[ids[at]].block_ids.len(),
    ensures
        blocks_of(pending, ids).contains(pending[ids[at]].block_ids[i]),
    decreases ids.len(),
{
    let earlier = blocks_of(pending, ids.drop_last());
    let all = blocks_of(pending, ids);
    let block_id = pending[ids[at]].block_ids[i];
    if at == ids.len() - 1 {
        assert(all[earlier.len() + i] == block_id);
    } else {
        lemma_block_among(pending, ids.drop_last(), at, i);
        let j = choose|j: int| 0 <= j < earlier.len() && earlier[j] == block_id;
        assert(all[j] == block_id);
    }
}

proof fn lemma_retired_gone(arena: ArenaView, block_ids: Seq<Seq<u8>>, block_id: Seq<u8>)
    requires
        block_ids.contains(block_id) || !arena.blocks.contains_key(block_id),
    ensures
        !arena.retired_all(block_ids).blocks.contains_key(block_id),
    decreases block_ids.len(),
{
    if block_ids.len() > 0 && block_ids.last() != block_id {
        let rest = block_ids.drop_last();
        if block_ids.contains(block_id) {
            let i = choose|i: int| 0 <= i < block_ids.len() && block_ids[i] == block_id;
            assert(rest[i] == block_id);
        }
        lemma_retired_gone(arena, rest, block_id);
    }
}

/// Whether every scope was given out.
pub open spec fn scopes_wf(scopes: Set<u64>, next_read_scope: u64) -> bool {
    forall|scope: u64| #[trigger] scopes.contains(scope) ==> scope < next_read_scope
}

/// Whether every download's name was given out.
pub open spec fn downloads_wf(downloads: Map<u64, DownloadTicket>, next_transfer: u64) -> bool {
    forall|id: u64| #[trigger] downloads.contains_key(id) ==> id < next_transfer
}

/// Whether every read and every import that began up to some scope has ended.
pub open spec fn reads_drained(scopes: Set<u64>, imports: ImportsView, cutoff: u64) -> bool {
    &&& forall|scope: u64| #[trigger] scopes.contains(scope) ==> scope > cutoff
    &&& imports.drained(cutoff)
}

/// Whether every retirement began among the scopes that were given out, and the reads before each
/// one that is prepared have ended.
pub open spec fn retirements_wf(
    pending: Map<Seq<u8>, RetirementView>,
    scopes: Set<u64>,
    imports: ImportsView,
    next_read_scope: u64,
) -> bool {
    &&& next_read_scope > 0
    &&& forall|id: Seq<u8>| #[trigger]
        pending.contains_key(id) ==> {
            &&& pending[id].cutoff_scope < next_read_scope
            &&& pending[id].prepared ==> reads_drained(scopes, imports, pending[id].cutoff_scope)
        }
}

/// Whether a session may be looking at a piece of memory.
pub open spec fn viewed(session: SessionView, allocation_id: u64) -> bool {
    exists|epoch: u64| #[trigger]
        session.active_views.contains_key(epoch)
            && session.active_views[epoch].allocation_ids.contains(allocation_id)
}

/// Whether a list of numbers holds one.
pub fn holds_number(numbers: &Vec<u64>, number: u64) -> (found: bool)
    ensures
        found == numbers@.contains(number),
{
    let mut i: usize = 0;
    while i < numbers.len()
        invariant
            i <= numbers@.len(),
            forall|j: int| 0 <= j < i ==> numbers@[j] != number,
        decreases numbers.len() - i,
    {
        if numbers[i] == number {
            return true;
        }
        i = i + 1;
    }
    false
}

/// Whether a session may be looking at a piece of memory.
fn is_viewed(session: &Session, allocation_id: u64) -> (found: bool)
    ensures
        found == viewed(session@, allocation_id),
{
    let looks = |epoch: &u64, view: &ActiveReadView| -> (met: bool)
        ensures
            met == view@.allocation_ids.contains(allocation_id),
    {
        holds_number(&view.allocation_ids, allocation_id)
    };
    let ghost test = |epoch: u64, view: ActiveReadValue|
        view.allocation_ids.contains(allocation_id);
    let found: bool = session.active_views.any(looks, Ghost(test));
    proof {
        if found {
            let epoch = choose|epoch: u64|
                #![trigger session.active_views@.contains_key(epoch)]
                session.active_views@.contains_key(epoch) && test(
                    epoch,
                    session.active_views@[epoch],
                );
            assert(session@.active_views.contains_key(epoch));
        }
    }
    found
}

impl NodeState {
    /// Whether somebody may still download or look at a piece of memory.
    fn is_borrowed(&self, allocation_id: u64) -> (found: bool)
        ensures
            found == self@.borrowed(allocation_id),
    {
        let downloads_it = |id: &u64, ticket: &DownloadTicket| -> (met: bool)
            ensures
                met == (ticket@.read.handle.allocation_id == allocation_id),
        {
            ticket.read.handle.allocation_id == allocation_id
        };
        let ghost download_test = |id: u64, ticket: DownloadTicket|
            ticket.read.handle.allocation_id == allocation_id;
        let downloaded: bool = self.downloads.any(downloads_it, Ghost(download_test));
        if downloaded {
            proof {
                let id = choose|id: u64|
                    #![trigger self.downloads@.contains_key(id)]
                    self.downloads@.contains_key(id) && download_test(id, self.downloads@[id]);
                assert(self@.downloads.contains_key(id));
            }
            return true;
        }
        let looks_at_it = |id: &u64, session: &Session| -> (met: bool)
            ensures
                met == viewed(session@, allocation_id),
        {
            is_viewed(session, allocation_id)
        };
        let ghost view_test = |id: u64, session: SessionView| viewed(session, allocation_id);
        let looked_at: bool = self.sessions.sessions.any(looks_at_it, Ghost(view_test));
        proof {
            assert(self@.downloads == self.downloads@);
            assert(self@.sessions.sessions == self.sessions.sessions@);
            if looked_at {
                let id = choose|id: u64|
                    #![trigger self.sessions.sessions@.contains_key(id)]
                    self.sessions.sessions@.contains_key(id) && view_test(
                        id,
                        self.sessions.sessions@[id],
                    );
                assert(self@.sessions.sessions.contains_key(id));
            } else {
                assert forall|id: u64| #[trigger]
                    self@.downloads.contains_key(
                        id,
                    ) implies self@.downloads[id].read.handle.allocation_id != allocation_id by {
                    assert(!download_test(id, self.downloads@[id]));
                }
                assert forall|id: u64| #[trigger]
                    self@.sessions.sessions.contains_key(id) implies !viewed(
                    self@.sessions.sessions[id],
                    allocation_id,
                ) by {
                    assert(!view_test(id, self.sessions.sessions@[id]));
                }
            }
        }
        looked_at
    }

    /// Whether nobody needs the memory of some blocks any more.
    pub fn retirement_can_release(&self, block_ids: &Vec<Vec<u8>>) -> (free: bool)
        ensures
            free == self@.can_release(views(block_ids@)),
    {
        let ghost ids = views(block_ids@);
        let mut i: usize = 0;
        while i < block_ids.len()
            invariant
                i <= block_ids@.len(),
                ids == views(block_ids@),
                forall|j: int|
                    #![trigger ids[j]]
                    0 <= j < i && self@.arena.blocks.contains_key(ids[j]) ==> !self@.borrowed(
                        self@.arena.blocks[ids[j]].allocation_id,
                    ) && !self@.arena.has_writer(ids[j]),
            decreases block_ids.len() - i,
        {
            assert(ids[i as int] == block_ids@[i as int]@);
            if let Some(allocation_id) = self.arena.block_allocation_id(&block_ids[i]) {
                if self.is_borrowed(allocation_id) {
                    return false;
                }
                if self.arena.block_has_unreturned_write(&block_ids[i]) {
                    return false;
                }
            }
            i = i + 1;
        }
        true
    }

    /// Whether every read and every import that began up to some scope has ended.
    pub fn read_scopes_drained(&self, cutoff: u64) -> (drained: bool)
        ensures
            drained == self@.drained(cutoff),
    {
        let early = |scope: &u64| -> (met: bool)
            ensures
                met == (*scope <= cutoff),
        {
            *scope <= cutoff
        };
        let reading: bool = self.active_read_scopes.any(early, Ghost(|scope: u64| scope <= cutoff));
        proof {
            if reading {
                let scope = choose|scope: u64|
                    #![trigger self.active_read_scopes@.contains(scope)]
                    self.active_read_scopes@.contains(scope) && scope <= cutoff;
                assert(self@.scopes.contains(scope));
            }
        }
        !reading && self.imports.is_drained(cutoff)
    }
}

/// Appends numbers.
pub fn append_numbers(target: &mut Vec<u64>, numbers: &Vec<u64>)
    ensures
        final(target)@ == old(target)@ + numbers@,
{
    let ghost before = target@;
    let mut i: usize = 0;
    while i < numbers.len()
        invariant
            i <= numbers@.len(),
            target@ =~= before + numbers@.take(i as int),
        decreases numbers.len() - i,
    {
        target.push(numbers[i]);
        i = i + 1;
    }
    assert(numbers@.take(i as int) =~= numbers@);
}

proof fn lemma_retired_concat(arena: ArenaView, first: Seq<Seq<u8>>, second: Seq<Seq<u8>>)
    ensures
        arena.retired_all(first + second) == arena.retired_all(first).retired_all(second),
    decreases second.len(),
{
    if second.len() == 0 {
        assert(first + second =~= first);
    } else {
        assert((first + second).drop_last() =~= first + second.drop_last());
        lemma_retired_concat(arena, first, second.drop_last());
    }
}

impl NodeState {
    /// Retires blocks, if nobody needs their memory any more.
    pub fn try_finalize_block_retirement(&mut self, block_ids: &Vec<Vec<u8>>) -> (retired: bool)
        requires
            old(self)@.wf(),
        ensures
            final(self)@.wf(),
            retired == old(self)@.can_release(views(block_ids@)),
            final(self)@ == (if retired {
                NodeView {
                    arena: old(self)@.arena.retired_all(views(block_ids@)),
                    retirements: RetirementsView {
                        retiring: old(self)@.retirements.retiring.difference(
                            views(block_ids@).to_set(),
                        ),
                        ..old(self)@.retirements
                    },
                    ..old(self)@
                }
            } else {
                old(self)@
            }),
    {
        if !self.retirement_can_release(block_ids) {
            return false;
        }
        self.release_blocks(block_ids);
        true
    }

    /// Retires blocks and opens their names again.
    fn release_blocks(&mut self, block_ids: &Vec<Vec<u8>>)
        requires
            old(self)@.arena.wf(),
        ensures
            final(self)@.arena.wf(),
            final(self)@ == (NodeView {
                arena: old(self)@.arena.retired_all(views(block_ids@)),
                retirements: RetirementsView {
                    retiring: old(self)@.retirements.retiring.difference(
                        views(block_ids@).to_set(),
                    ),
                    ..old(self)@.retirements
                },
                ..old(self)@
            }),
    {
        let ghost before = self@;
        let ghost ids = views(block_ids@);
        let mut i: usize = 0;
        assert(ids.take(0) =~= Seq::empty());
        assert(before.retirements.retiring.difference(ids.take(0).to_set())
            =~= before.retirements.retiring);
        while i < block_ids.len()
            invariant
                i <= block_ids@.len(),
                ids == views(block_ids@),
                self@.arena.wf(),
                self@ == (NodeView {
                    arena: before.arena.retired_all(ids.take(i as int)),
                    retirements: RetirementsView {
                        retiring: before.retirements.retiring.difference(
                            ids.take(i as int).to_set(),
                        ),
                        ..before.retirements
                    },
                    ..before
                }),
            decreases block_ids.len() - i,
        {
            self.arena.retire_block(&block_ids[i]);
            self.retirements.retiring.remove(&block_ids[i]);
            proof {
                assert(ids.take(i + 1).drop_last() =~= ids.take(i as int));
                crate::retirement::lemma_prefix_set(ids, i as int);
                assert(before.retirements.retiring.difference(ids.take(i + 1).to_set())
                    =~= before.retirements.retiring.difference(ids.take(i as int).to_set()).remove(
                    ids[i as int],
                ));
            }
            i = i + 1;
        }
        assert(ids.take(i as int) =~= ids);
    }

    /// Takes the retirements as far as they can go now, and returns who waited for that.
    pub fn advance_retirements(&mut self) -> (waiters: Vec<u64>)
        requires
            old(self)@.wf(),
        ensures
            final(self)@.wf(),
            old(self)@.advanced(final(self)@, waiters@),
    {
        let ghost before = self@;
        self.imports.prune(&self.active_read_scopes);
        let ghost pruned = self@;
        assert forall|cutoff: u64| #[trigger] pruned.drained(cutoff) == before.drained(cutoff) by {}
        let mut waiters: Vec<u64> = Vec::new();
        let ghost change = |id: Seq<u8>, retirement: RetirementView|
            if before.ready_to_prepare(retirement) {
                RetirementView { prepared: true, prepare_waiters: Seq::empty(), ..retirement }
            } else {
                retirement
            };
        let ghost prepared_ids: Seq<Seq<u8>>;
        {
            let node = &*self;
            let is_ready = |id: &Vec<u8>, retirement: &PendingRetirement| -> (met: bool)
                ensures
                    met == node@.ready_to_prepare(retirement@),
            {
                !retirement.prepared && node.read_scopes_drained(retirement.cutoff_scope)
            };
            let ghost test = |id: Seq<u8>, retirement: RetirementView|
                pruned.ready_to_prepare(retirement);
            let ready = node.retirements.pending.keys_where(is_ready, Ghost(test));
            let ghost names = views(ready@);
            proof {
                assert(before.now_prepared() =~= Set::new(
                    |id: Seq<u8>|
                        before.retirements.pending.contains_key(id) && test(
                            id,
                            before.retirements.pending[id],
                        ),
                ));
                lemma_keys_list(ready@, before.now_prepared());
                prepared_ids = names;
            }
            let mut i: usize = 0;
            assert(names.take(0) =~= Seq::empty());
            while i < ready.len()
                invariant
                    i <= ready@.len(),
                    names == views(ready@),
                    node.retirements@.pending == before.retirements.pending,
                    keys_are(ready@, before.now_prepared()),
                    waiters@ =~= prepare_waiters_of(
                        before.retirements.pending,
                        names.take(i as int),
                    ),
                decreases ready.len() - i,
            {
                assert(names.take(i + 1).drop_last() =~= names.take(i as int));
                assert(before.now_prepared().contains(ready@[i as int]@));
                if let Some(retirement) = node.retirements.pending.get(&ready[i]) {
                    append_numbers(&mut waiters, &retirement.prepare_waiters);
                }
                i = i + 1;
            }
            assert(names.take(i as int) =~= names);
        }
        self.mark_prepared(Ghost(before));
        let ghost middle = self@;
        let finished: Vec<Vec<u8>>;
        let ghost ended_ids: Seq<Seq<u8>>;
        {
            let node = &*self;
            let is_over = |id: &Vec<u8>, retirement: &PendingRetirement| -> (met: bool)
                ensures
                    met == node@.ready_to_end(retirement@),
            {
                retirement.prepared && retirement.final_requested && node.retirement_can_release(
                    &retirement.block_ids,
                )
            };
            let ghost test = |id: Seq<u8>, retirement: RetirementView|
                middle.ready_to_end(retirement);
            finished = node.retirements.pending.keys_where(is_over, Ghost(test));
            proof {
                assert forall|retirement: RetirementView| #[trigger]
                    middle.ready_to_end(retirement) == before.ready_to_end(retirement) by {
                    lemma_same_release(before, middle, retirement.block_ids);
                }
                assert(before.now_ended() =~= Set::new(
                    |id: Seq<u8>|
                        middle.retirements.pending.contains_key(id) && test(
                            id,
                            middle.retirements.pending[id],
                        ),
                ));
                lemma_keys_list(finished@, before.now_ended());
                ended_ids = views(finished@);
            }
        }
        self.end_retirements(&finished, &mut waiters);
        proof {
            assert(lists(prepared_ids, before.now_prepared()));
            assert(lists(ended_ids, before.now_ended()));
            assert(self@ =~= before.with_retirements(ended_ids));
        }
        waiters
    }

    fn mark_prepared(&mut self, Ghost(before): Ghost<NodeView>)
        requires
            old(self)@.wf(),
            old(self)@ == (NodeView { imports: before.imports.pruned(before.scopes), ..before }),
        ensures
            final(self)@.wf(),
            final(self)@ == (NodeView {
                retirements: RetirementsView {
                    pending: before.pending_after(),
                    ..before.retirements
                },
                ..old(self)@
            }),
    {
        assert forall|cutoff: u64| #[trigger]
            reads_drained(self@.scopes, self@.imports, cutoff) == before.drained(cutoff) by {}
        let scopes = &self.active_read_scopes;
        let imports = &self.imports;
        let mark = |id: &Vec<u8>, retirement: PendingRetirement| -> (next: PendingRetirement)
            ensures
                next@ == (if !retirement@.prepared && reads_drained(
                    scopes@,
                    imports@,
                    retirement@.cutoff_scope,
                ) {
                    RetirementView {
                        prepared: true,
                        prepare_waiters: Seq::empty(),
                        ..retirement@
                    }
                } else {
                    retirement@
                }),
        {
            let cutoff: u64 = retirement.cutoff_scope;
            let early = |scope: &u64| -> (met: bool)
                ensures
                    met == (*scope <= cutoff),
            {
                *scope <= cutoff
            };
            let reading: bool = scopes.any(early, Ghost(|scope: u64| scope <= cutoff));
            let ready: bool = !retirement.prepared && !reading && imports.is_drained(cutoff);
            proof {
                if reading {
                    let scope = choose|scope: u64|
                        #![trigger scopes@.contains(scope)]
                        scopes@.contains(scope) && scope <= cutoff;
                    assert(!reads_drained(scopes@, imports@, cutoff));
                }
                assert(reads_drained(scopes@, imports@, cutoff) == (!reading && imports@.drained(
                    cutoff,
                )));
            }
            if ready {
                let none: Vec<u64> = Vec::new();
                assert(none@ =~= Seq::empty());
                PendingRetirement { prepared: true, prepare_waiters: none, ..retirement }
            } else {
                retirement
            }
        };
        self.retirements.pending.rewrite(
            mark,
            Ghost(
                |id: Seq<u8>, retirement: RetirementView|
                    if before.ready_to_prepare(retirement) {
                        RetirementView {
                            prepared: true,
                            prepare_waiters: Seq::empty(),
                            ..retirement
                        }
                    } else {
                        retirement
                    },
            ),
        );
        assert(self@.retirements.pending =~= before.pending_after());
    }

    fn end_retirements(&mut self, finished: &Vec<Vec<u8>>, waiters: &mut Vec<u64>)
        requires
            old(self)@.wf(),
            forall|i: int|
                #![trigger finished@[i]]
                0 <= i < finished@.len() ==> old(self)@.retirements.pending.contains_key(
                    finished@[i]@,
                ),
            views(finished@).no_duplicates(),
        ensures
            final(self)@.wf(),
            final(waiters)@ == old(waiters)@ + final_waiters_of(
                old(self)@.retirements.pending,
                views(finished@),
            ),
            final(self)@ == (NodeView {
                arena: old(self)@.arena.retired_all(
                    blocks_of(old(self)@.retirements.pending, views(finished@)),
                ),
                retirements: RetirementsView {
                    pending: old(self)@.retirements.pending.remove_keys(
                        views(finished@).to_set(),
                    ),
                    completed: remembered_all(
                        old(self)@.retirements.completed,
                        views(finished@),
                    ),
                    retiring: old(self)@.retirements.retiring.difference(
                        blocks_of(old(self)@.retirements.pending, views(finished@)).to_set(),
                    ),
                },
                ..old(self)@
            }),
    {
        let ghost before = self@;
        let ghost pending = before.retirements.pending;
        let ghost said = waiters@;
        let ghost names = views(finished@);
        let mut i: usize = 0;
        assert(names.take(0) =~= Seq::empty());
        assert(waiters@ =~= said + final_waiters_of(pending, names.take(0)));
        assert(pending.remove_keys(names.take(0).to_set()) =~= pending);
        assert(before.retirements.retiring.difference(blocks_of(pending, names.take(0)).to_set())
            =~= before.retirements.retiring);
        assert(self@ =~= ended_state(before, names.take(0)));
        while i < finished.len()
            invariant
                i <= finished@.len(),
                names == views(finished@),
                pending == before.retirements.pending,
                names.no_duplicates(),
                forall|j: int|
                    #![trigger finished@[j]]
                    0 <= j < finished@.len() ==> pending.contains_key(finished@[j]@),
                self@.wf(),
                waiters@ == said + final_waiters_of(pending, names.take(i as int)),
                self@ == ended_state(before, names.take(i as int)),
            decreases finished.len() - i,
        {
            let ghost name = names[i as int];
            let ghost done = names.take(i as int);
            let ghost start = self@;
            proof {
                assert(names.take(i + 1).drop_last() =~= done);
                assert(names.take(i + 1).last() == name);
                assert(finished@[i as int]@ == name);
                crate::retirement::lemma_prefix_set(names, i as int);
                assert(!done.contains(name)) by {
                    if done.contains(name) {
                        let j = choose|j: int| 0 <= j < done.len() && done[j] == name;
                        assert(names[j] == names[i as int]);
                    }
                }
            }
            if let Some(retirement) = self.retirements.pending.remove(&finished[i]) {
                self.release_blocks(&retirement.block_ids);
                append_numbers(waiters, &retirement.prepare_waiters);
                append_numbers(waiters, &retirement.final_waiters);
                self.retirements.remember_completed_retirement(copy_bytes(&finished[i]));
                proof {
                    let blocks = blocks_of(pending, done);
                    let more = pending[name].block_ids;
                    lemma_retired_concat(before.arena, blocks, more);
                    assert(waiters@ =~= said + final_waiters_of(pending, names.take(i + 1)));
                    assert((blocks + more).to_set() =~= blocks.to_set().union(more.to_set())) by {
                        lemma_concat_set(blocks, more);
                    }
                    assert(before.retirements.retiring.difference(
                        blocks_of(pending, names.take(i + 1)).to_set(),
                    ) =~= before.retirements.retiring.difference(blocks.to_set()).difference(
                        more.to_set(),
                    ));
                    assert(self@ =~= ended_state(before, names.take(i + 1)));
                    assert(self@ == (NodeView {
                        arena: self@.arena,
                        retirements: self@.retirements,
                        ..start
                    }));
                    assert(self@.wf());
                }
            }
            i = i + 1;
        }
        assert(names.take(i as int) =~= names);
    }
}

/// The state after some retirements ended.
spec fn ended_state(before: NodeView, ended: Seq<Seq<u8>>) -> NodeView {
    let pending = before.retirements.pending;
    NodeView {
        arena: before.arena.retired_all(blocks_of(pending, ended)),
        retirements: RetirementsView {
            pending: pending.remove_keys(ended.to_set()),
            completed: remembered_all(before.retirements.completed, ended),
            retiring: before.retirements.retiring.difference(blocks_of(pending, ended).to_set()),
        },
        ..before
    }
}

proof fn lemma_concat_set<T>(first: Seq<T>, second: Seq<T>)
    ensures
        (first + second).to_set() =~= first.to_set().union(second.to_set()),
{
    let both = first + second;
    assert forall|item: T| both.to_set().contains(item) == first.to_set().union(
        second.to_set(),
    ).contains(item) by {
        if first.contains(item) {
            let i = choose|i: int| 0 <= i < first.len() && first[i] == item;
            assert(both[i] == item);
        }
        if second.contains(item) {
            let i = choose|i: int| 0 <= i < second.len() && second[i] == item;
            assert(both[first.len() + i] == item);
        }
        if both.contains(item) {
            let i = choose|i: int| 0 <= i < both.len() && both[i] == item;
            if i < first.len() {
                assert(first[i] == item);
            } else {
                assert(second[i - first.len()] == item);
            }
        }
    }
}

/// Whether blocks can be released depends on the arena, the downloads and the sessions alone.
proof fn lemma_same_release(left: NodeView, right: NodeView, block_ids: Seq<Seq<u8>>)
    requires
        left.arena == right.arena,
        left.downloads == right.downloads,
        left.sessions == right.sessions,
    ensures
        left.can_release(block_ids) == right.can_release(block_ids),
{
    assert forall|allocation_id: u64| #[trigger] left.borrowed(allocation_id) == right.borrowed(
        allocation_id,
    ) by {}
}

} // verus!
