//! Batches of writes, which are published together or not at all, and deletions.
use crate::arena::HostReceipt;
#[allow(unused_imports)]
use crate::arena::lemma_retired;
use crate::bytes::copy_bytes;
#[allow(unused_imports)]
use crate::bytes::{lemma_views_push, lemma_views_take, views};
#[allow(unused_imports)]
use crate::error::{arena_fault, proves_unpublished};
use crate::error::{
    is_definitive_metadata_rejection, map_arena_error, map_metadata_error, DmsError, WorkerError,
};
use crate::identity::{block_identity, derive_batch_operation_id};
#[allow(unused_imports)]
use crate::identity::{block_name, derived_operation};
use crate::limits::{
    validate_batch_write, validate_operation_id, validate_user_key, BatchEntry,
};
#[allow(unused_imports)]
use crate::limits::{batch_fault, key_fault, operation_fault, BatchEntryView};
use crate::node::NodeState;
#[allow(unused_imports)]
use crate::node::NodeView;
use crate::node_session::Broadcast;
#[allow(unused_imports)]
use crate::node_session::receipt_for;
use crate::peer_import::NODE_MAILBOX_CAPACITY;
#[allow(unused_imports)]
use crate::staging::lemma_sealed;
use vstd::prelude::*;

verus! {

/// One value of a batch that is proposed to the metadata service.
#[derive(Debug, PartialEq, Eq)]
pub struct BatchValueCommit {
    pub key: Vec<u8>,
    pub block_id: Vec<u8>,
    pub length: u64,
    pub checksum: Vec<u8>,
    pub operation_id: Vec<u8>,
}

/// One value of a batch, as a value.
#[verifier::ext_equal]
pub struct BatchValueView {
    pub key: Seq<u8>,
    pub block_id: Seq<u8>,
    pub length: u64,
    pub checksum: Seq<u8>,
    pub operation_id: Seq<u8>,
}

impl View for BatchValueCommit {
    type V = BatchValueView;

    open spec fn view(&self) -> BatchValueView {
        BatchValueView {
            key: self.key@,
            block_id: self.block_id@,
            length: self.length,
            checksum: self.checksum@,
            operation_id: self.operation_id@,
        }
    }
}

/// A batch that is proposed to the metadata service.
#[derive(Debug, PartialEq, Eq)]
pub struct BatchCommit {
    pub session_id: u64,
    pub values: Vec<BatchValueCommit>,
    pub operation_id: Vec<u8>,
}

/// A batch that is proposed to the metadata service, as a value.
#[verifier::ext_equal]
pub struct BatchCommitView {
    pub session_id: u64,
    pub values: Seq<BatchValueView>,
    pub operation_id: Seq<u8>,
}

impl View for BatchCommit {
    type V = BatchCommitView;

    open spec fn view(&self) -> BatchCommitView {
        BatchCommitView {
            session_id: self.session_id,
            values: views(self.values@),
            operation_id: self.operation_id@,
        }
    }
}

/// What the metadata service says of one value of a batch.
#[derive(Debug, PartialEq, Eq)]
pub struct BatchItemResult {
    pub key: Option<Vec<u8>>,
    pub version: Option<u64>,
}

/// What the metadata service says of one value of a batch, as a value.
#[verifier::ext_equal]
pub struct ItemView {
    pub key: Option<Seq<u8>>,
    pub version: Option<u64>,
}

impl View for BatchItemResult {
    type V = ItemView;

    open spec fn view(&self) -> ItemView {
        ItemView {
            key: match self.key {
                Some(key) => Some(key@),
                None => None,
            },
            version: self.version,
        }
    }
}

/// The version that a key has got.
#[derive(Debug, PartialEq, Eq)]
pub struct KeySetOutcome {
    pub key: Vec<u8>,
    pub version: u64,
}

impl View for KeySetOutcome {
    type V = (Seq<u8>, u64);

    open spec fn view(&self) -> (Seq<u8>, u64) {
        (self.key@, self.version)
    }
}

/// What came of a batch.
#[derive(Debug, PartialEq, Eq)]
pub struct MSetOutcome {
    pub versions: Vec<KeySetOutcome>,
    /// The barriers to wait for before the batch is reported.
    pub barrier_ids: Vec<u64>,
}

/// A batch that was published and whose clients are being told, value after value.
#[derive(Debug, PartialEq, Eq)]
pub struct BatchCompletion {
    pub session_id: u64,
    pub block_ids: Vec<Vec<u8>>,
    pub results: Vec<BatchItemResult>,
    pub versions: Vec<KeySetOutcome>,
    pub barrier_ids: Vec<u64>,
}

/// A batch that was published, as a value.
#[verifier::ext_equal]
pub struct CompletionView {
    pub session_id: u64,
    pub block_ids: Seq<Seq<u8>>,
    pub results: Seq<ItemView>,
    pub versions: Seq<(Seq<u8>, u64)>,
    pub barrier_ids: Seq<u64>,
}

impl View for BatchCompletion {
    type V = CompletionView;

    open spec fn view(&self) -> CompletionView {
        CompletionView {
            session_id: self.session_id,
            block_ids: views(self.block_ids@),
            results: views(self.results@),
            versions: views(self.versions@),
            barrier_ids: self.barrier_ids@,
        }
    }
}

/// What came of a deletion.
#[derive(Clone, Copy, Debug, PartialEq, Eq, Structural)]
pub struct DeleteOutcome {
    pub deleted: bool,
    pub version: u64,
    /// The barrier to wait for before the deletion is reported, if there is any.
    pub barrier_id: Option<u64>,
}

/// The names of the blocks of some values.
pub open spec fn blocks_named(values: Seq<BatchValueView>) -> Seq<Seq<u8>> {
    values.map_values(|value: BatchValueView| value.block_id)
}

impl NodeView {
    /// The state after the writes of some blocks have ended, one after the other.
    pub open spec fn all_ended(self, block_ids: Seq<Seq<u8>>, rejected: bool) -> NodeView
        decreases block_ids.len(),
    {
        if block_ids.len() == 0 {
            self
        } else {
            self.all_ended(block_ids.drop_last(), rejected).preparation_ended(
                block_ids.last(),
                rejected,
            )
        }
    }

    /// The blocks of the values of a batch, made one after the other, and the first reason why one
    /// cannot be made.
    pub open spec fn batch_blocks(
        self,
        session_id: u64,
        entries: Seq<BatchEntryView>,
        operation_id: Seq<u8>,
    ) -> (NodeView, Seq<BatchValueView>, Option<WorkerError>)
        decreases entries.len(),
    {
        if entries.len() == 0 {
            (self, Seq::empty(), None)
        } else {
            let (earlier, values, fault) = self.batch_blocks(
                session_id,
                entries.drop_last(),
                operation_id,
            );
            let entry = entries.last();
            let name = derived_operation(operation_id, (entries.len() - 1) as u64);
            let block_id = block_name(self.node_id, name);
            let counted = receipt_for(self.sessions.sessions[session_id], entry.receipt);
            if fault is Some {
                (earlier, values, fault)
            } else if earlier.preparation_fault(block_id) is Some {
                (earlier, values, earlier.preparation_fault(block_id))
            } else {
                match earlier.arena.sealed(session_id, entry.staging_id, counted, block_id) {
                    Err(error) => (earlier, values, Some(arena_fault(error))),
                    Ok(arena) => (
                        earlier.with_pending(block_id, arena),
                        values.push(
                            BatchValueView {
                                key: entry.key,
                                block_id,
                                length: entry.receipt.length,
                                checksum: entry.receipt.digest,
                                operation_id: name,
                            },
                        ),
                        None,
                    ),
                }
            }
        }
    }

    /// The state after a batch was proposed, and the proposal, or why there is none. Where a block
    /// cannot be made, those that were made for the batch go again.
    pub open spec fn batch_proposed(
        self,
        session_id: u64,
        entries: Seq<BatchEntryView>,
        operation_id: Seq<u8>,
    ) -> (NodeView, Result<BatchCommitView, WorkerError>) {
        if batch_fault(entries) is Some {
            (self, Err(batch_fault(entries)->0))
        } else if operation_fault(operation_id) is Some {
            (self, Err(operation_fault(operation_id)->0))
        } else if !self.sessions.live(session_id) {
            (self, Err(WorkerError::UnknownSession))
        } else if !self.has_metadata {
            (self, Err(WorkerError::MetadataUnavailable))
        } else {
            let (next, values, fault) = self.batch_blocks(session_id, entries, operation_id);
            match fault {
                Some(error) => (next.all_ended(blocks_named(values), true), Err(error)),
                None => (next, Ok(BatchCommitView { session_id, values, operation_id })),
            }
        }
    }

    /// Why a session's deletion cannot be proposed. The node's own have no session.
    pub open spec fn delete_fault(
        self,
        session_id: Option<u64>,
        key: Seq<u8>,
        operation_id: Seq<u8>,
    ) -> Option<WorkerError> {
        if key_fault(key) is Some {
            key_fault(key)
        } else if operation_fault(operation_id) is Some {
            operation_fault(operation_id)
        } else if session_id is Some && !self.sessions.live(session_id->0) {
            Some(WorkerError::UnknownSession)
        } else if !self.has_metadata {
            Some(WorkerError::MetadataUnavailable)
        } else {
            None
        }
    }
}

impl CompletionView {
    /// Whether every value has been told of.
    pub open spec fn over(self) -> bool {
        self.versions.len() >= self.results.len() || self.versions.len() >= self.block_ids.len()
    }

    /// The value to tell of next, if the metadata service said enough of it.
    pub open spec fn next_value(self) -> Option<(Seq<u8>, Seq<u8>, u64)> {
        let item = self.results[self.versions.len() as int];
        if item.key is Some && item.version is Some {
            Some((self.block_ids[self.versions.len() as int], item.key->0, item.version->0))
        } else {
            None
        }
    }
}

/// A batch that cannot be proposed leaves no block behind that was not there: each block that was
/// made for it goes again, and what was there stays and holds what it held.
pub proof fn a_failed_batch_leaves_no_block_pending(
    node: NodeView,
    session_id: u64,
    entries: Seq<BatchEntryView>,
    operation_id: Seq<u8>,
)
    requires
        node.wf(),
        node.batch_proposed(session_id, entries, operation_id).1 is Err,
    ensures
        node.batch_proposed(session_id, entries, operation_id).0.pending_blocks
            == node.pending_blocks,
        forall|id: Seq<u8>| #[trigger]
            node.batch_proposed(
                session_id,
                entries,
                operation_id,
            ).0.arena.blocks.contains_key(id) <==> node.arena.blocks.contains_key(id),
        forall|id: Seq<u8>| #[trigger]
            node.arena.blocks.contains_key(id) ==> node.batch_proposed(
                session_id,
                entries,
                operation_id,
            ).0.arena.block_bytes(id) == node.arena.block_bytes(id),
{
    let (after, _) = node.batch_proposed(session_id, entries, operation_id);
    if after != node {
        let (next, values, fault) = node.batch_blocks(session_id, entries, operation_id);
        lemma_batch_blocks(node, session_id, entries, operation_id);
        lemma_all_ended(node, next, blocks_named(values));
        lemma_batch_keeps(node, session_id, entries, operation_id);
        let names = blocks_named(values);
        lemma_ended_keeps(node, next, names, names.len() as int);
        assert(names.take(names.len() as int) =~= names);
    }
}

/// The blocks that are there when a batch is proposed hold what they held while its own are made.
proof fn lemma_batch_keeps(
    node: NodeView,
    session_id: u64,
    entries: Seq<BatchEntryView>,
    operation_id: Seq<u8>,
)
    requires
        node.arena.wf(),
    ensures
        ({
            let next = node.batch_blocks(session_id, entries, operation_id).0;
            &&& next.arena.wf()
            &&& forall|id: Seq<u8>| #[trigger]
                node.arena.blocks.contains_key(id) ==> next.arena.blocks.contains_key(id)
                    && next.arena.block_bytes(id) == node.arena.block_bytes(id)
        }),
    decreases entries.len(),
{
    if entries.len() > 0 {
        let rest = entries.drop_last();
        lemma_batch_keeps(node, session_id, rest, operation_id);
        let (earlier, _, fault) = node.batch_blocks(session_id, rest, operation_id);
        let entry = entries.last();
        let name = derived_operation(operation_id, (entries.len() - 1) as u64);
        let block_id = block_name(node.node_id, name);
        let counted = receipt_for(node.sessions.sessions[session_id], entry.receipt);
        if fault is None && earlier.preparation_fault(block_id) is None && earlier.arena.sealed(
            session_id,
            entry.staging_id,
            counted,
            block_id,
        ) is Ok {
            lemma_sealed(earlier.arena, session_id, entry.staging_id, counted, block_id);
        }
    }
}

/// The blocks that were there before a batch hold what they held while its own go again.
proof fn lemma_ended_keeps(before: NodeView, after: NodeView, block_ids: Seq<Seq<u8>>, n: int)
    requires
        added(before, after, block_ids),
        after.arena.wf(),
        0 <= n <= block_ids.len(),
    ensures
        ({
            let ended = after.all_ended(block_ids.take(n), true);
            &&& ended.arena.wf()
            &&& forall|id: Seq<u8>| #[trigger]
                before.arena.blocks.contains_key(id) ==> ended.arena.blocks.contains_key(id)
                    && ended.arena.block_bytes(id) == after.arena.block_bytes(id)
        }),
    decreases n,
{
    if n > 0 {
        lemma_ended_keeps(before, after, block_ids, n - 1);
        lemma_ended_prefix(before, after, block_ids, n - 1);
        let earlier = after.all_ended(block_ids.take(n - 1), true);
        let block_id = block_ids[n - 1];
        assert(block_ids.take(n).drop_last() =~= block_ids.take(n - 1));
        assert(block_ids.contains(block_id));
        lemma_retired(earlier.arena, block_id);
    } else {
        assert(block_ids.take(0) =~= Seq::empty());
    }
}

/// While one of the operations of a batch is under way, the batch is not proposed.
pub proof fn an_operation_under_way_keeps_its_batch_out(
    node: NodeView,
    session_id: u64,
    entries: Seq<BatchEntryView>,
    operation_id: Seq<u8>,
    index: int,
)
    requires
        0 <= index < entries.len() <= u64::MAX,
        node.under_way(derived_operation(operation_id, index as u64)),
    ensures
        node.batch_proposed(session_id, entries, operation_id).1 is Err,
{
    lemma_batch_meets(node, session_id, entries, operation_id, index);
}

proof fn lemma_batch_meets(
    node: NodeView,
    session_id: u64,
    entries: Seq<BatchEntryView>,
    operation_id: Seq<u8>,
    index: int,
)
    requires
        0 <= index < entries.len() <= u64::MAX,
        node.under_way(derived_operation(operation_id, index as u64)),
    ensures
        node.batch_blocks(session_id, entries, operation_id).2 is Some,
    decreases entries.len(),
{
    let rest = entries.drop_last();
    if index < rest.len() {
        lemma_batch_meets(node, session_id, rest, operation_id, index);
    } else {
        lemma_batch_blocks(node, session_id, rest, operation_id);
    }
}

/// Each value of a batch that was proposed is under way.
pub proof fn a_proposed_batch_is_under_way(
    node: NodeView,
    session_id: u64,
    entries: Seq<BatchEntryView>,
    operation_id: Seq<u8>,
    index: int,
)
    requires
        node.wf(),
        node.batch_proposed(session_id, entries, operation_id).1 is Ok,
        0 <= index < entries.len() <= u64::MAX,
    ensures
        node.batch_proposed(session_id, entries, operation_id).0.under_way(
            derived_operation(operation_id, index as u64),
        ),
{
    lemma_batch_under_way(node, session_id, entries, operation_id, index);
}

proof fn lemma_batch_under_way(
    node: NodeView,
    session_id: u64,
    entries: Seq<BatchEntryView>,
    operation_id: Seq<u8>,
    index: int,
)
    requires
        node.batch_blocks(session_id, entries, operation_id).2 is None,
        0 <= index < entries.len() <= u64::MAX,
    ensures
        node.batch_blocks(session_id, entries, operation_id).0.under_way(
            derived_operation(operation_id, index as u64),
        ),
        node.batch_blocks(session_id, entries, operation_id).0.node_id == node.node_id,
    decreases entries.len(),
{
    let rest = entries.drop_last();
    if rest.len() > 0 {
        lemma_batch_under_way(
            node,
            session_id,
            rest,
            operation_id,
            if index < rest.len() {
                index
            } else {
                0
            },
        );
    } else {
        let none = Seq::<BatchValueView>::empty();
        assert(node.batch_blocks(session_id, rest, operation_id) == (
            node,
            none,
            None::<WorkerError>,
        ));
    }
}

/// Each value of a batch that was proposed stands for one entry, and its block holds what the client
/// staged for that entry, also where it was there before with these bytes. What was there stays as
/// it is.
pub proof fn a_batch_holds_what_was_staged(
    node: NodeView,
    session_id: u64,
    entries: Seq<BatchEntryView>,
    operation_id: Seq<u8>,
)
    requires
        node.wf(),
        node.batch_proposed(session_id, entries, operation_id).1 is Ok,
    ensures
        ({
            let (next, proposed) = node.batch_proposed(session_id, entries, operation_id);
            let values = proposed->Ok_0.values;
            &&& values.len() == entries.len()
            &&& forall|i: int|
                #![trigger values[i]]
                #![trigger entries[i]]
                0 <= i < entries.len() ==> value_holds(node, next, entries[i], values[i])
            &&& forall|id: Seq<u8>| #[trigger]
                node.arena.blocks.contains_key(id) ==> next.arena.blocks.contains_key(id)
                    && next.arena.block_bytes(id) == node.arena.block_bytes(id)
        }),
{
    assert forall|id: Seq<u8>| #[trigger] node.arena.blocks.contains_key(id) implies
        !node.arena.stagings.contains_key(node.arena.blocks[id].allocation_id) by {
        let allocation_id = node.arena.blocks[id].allocation_id;
        assert(node.arena.block_wf(id));
        if node.arena.stagings.contains_key(allocation_id) {
            assert(node.arena.staging_wf(allocation_id));
        }
    }
    lemma_batch_holds(node, session_id, entries, operation_id);
}

/// A batch is proposed for the session and under the operation that it was asked for, and its values
/// stand for its entries in their order: each with its entry's key, under a name of its own that is
/// made from the batch's and from its place.
pub proof fn a_batch_is_proposed_as_it_was_asked_for(
    node: NodeView,
    session_id: u64,
    entries: Seq<BatchEntryView>,
    operation_id: Seq<u8>,
    at: int,
)
    requires
        node.batch_proposed(session_id, entries, operation_id).1 is Ok,
        0 <= at < entries.len() <= u64::MAX,
    ensures
        ({
            let (next, proposed) = node.batch_proposed(session_id, entries, operation_id);
            let commit = proposed->Ok_0;
            let name = derived_operation(operation_id, at as u64);
            &&& commit.session_id == session_id
            &&& commit.operation_id == operation_id
            &&& commit.values.len() == entries.len()
            &&& commit.values[at].key == entries[at].key
            &&& commit.values[at].length == entries[at].receipt.length
            &&& commit.values[at].checksum == entries[at].receipt.digest
            &&& commit.values[at].operation_id == name
            &&& commit.values[at].block_id == block_name(node.node_id, name)
            &&& next.sessions == node.sessions
            &&& next.cache == node.cache
            &&& node.sessions.live(session_id)
            &&& node.has_metadata
        }),
{
    lemma_batch_named(node, session_id, entries, operation_id, at);
}

proof fn lemma_batch_named(
    node: NodeView,
    session_id: u64,
    entries: Seq<BatchEntryView>,
    operation_id: Seq<u8>,
    at: int,
)
    requires
        node.batch_blocks(session_id, entries, operation_id).2 is None,
    ensures
        ({
            let (next, values, _) = node.batch_blocks(session_id, entries, operation_id);
            let name = derived_operation(operation_id, at as u64);
            &&& values.len() == entries.len()
            &&& next.sessions == node.sessions
            &&& next.cache == node.cache
            &&& 0 <= at < entries.len() ==> values[at].key == entries[at].key && values[at].length
                == entries[at].receipt.length && values[at].checksum == entries[at].receipt.digest
                && values[at].operation_id == name && values[at].block_id == block_name(
                node.node_id,
                name,
            )
        }),
    decreases entries.len(),
{
    if entries.len() > 0 {
        let rest = entries.drop_last();
        lemma_batch_named(node, session_id, rest, operation_id, at);
        let early = node.batch_blocks(session_id, rest, operation_id).1;
        let values = node.batch_blocks(session_id, entries, operation_id).1;
        if 0 <= at < rest.len() {
            assert(rest[at] == entries[at]);
            assert(values[at] == early[at]);
        }
    }
}

/// A deletion may be proposed if and only if its key and its operation have proper names, the session
/// that asks for it, if any does, can be used, and there is a metadata service.
pub proof fn a_proper_deletion_may_be_proposed(
    node: NodeView,
    session_id: Option<u64>,
    key: Seq<u8>,
    operation_id: Seq<u8>,
)
    ensures
        node.delete_fault(session_id, key, operation_id) is None <==> 1 <= key.len() <= 1024
            && operation_id.len() == 24 && node.has_metadata && (session_id matches Some(id)
            ==> node.sessions.sessions.contains_key(id) && !node.sessions.sessions[id].disconnected),
{
}

/// The end of the writes of a batch leaves none of its blocks under way and touches no other. A block
/// goes only where the batch was certainly refused and had made it.
pub proof fn an_ended_batch_leaves_nothing_under_way(
    node: NodeView,
    block_ids: Seq<Seq<u8>>,
    rejected: bool,
    block_id: Seq<u8>,
)
    ensures
        ({
            let next = node.all_ended(block_ids, rejected);
            &&& next.pending_blocks.contains_key(block_id) <==> node.pending_blocks.contains_key(
                block_id,
            ) && !block_ids.contains(block_id)
            &&& next.pending_blocks.contains_key(block_id) ==> next.pending_blocks[block_id]
                == node.pending_blocks[block_id]
            &&& node.arena.blocks.contains_key(block_id) ==> (next.arena.blocks.contains_key(
                block_id,
            ) <==> !(block_ids.contains(block_id) && rejected && node.pending_blocks.contains_key(
                block_id,
            ) && node.pending_blocks[block_id]))
            &&& !rejected ==> next.arena == node.arena
            &&& next.sessions == node.sessions
            &&& next.cache == node.cache
        }),
    decreases block_ids.len(),
{
    if block_ids.len() > 0 {
        let rest = block_ids.drop_last();
        an_ended_batch_leaves_nothing_under_way(node, rest, rejected, block_id);
        assert(block_ids[block_ids.len() - 1] == block_ids.last());
        assert(block_ids.contains(block_id) <==> rest.contains(block_id) || block_ids.last()
            == block_id) by {
            if rest.contains(block_id) {
                let i = choose|i: int| 0 <= i < rest.len() && rest[i] == block_id;
                assert(block_ids[i] == block_id);
            }
            if block_ids.contains(block_id) && block_ids.last() != block_id {
                let i = choose|i: int| 0 <= i < block_ids.len() && block_ids[i] == block_id;
                assert(rest[i] == block_id);
            }
        }
    }
}

/// The values of a batch are told of one after the other, each under the block, the key and the version
/// that belong to its place, until all have been. One of which the metadata service did not say enough
/// is not told of.
pub proof fn the_values_of_a_batch_are_told_of_in_turn(completion: CompletionView)
    ensures
        completion.over() <==> completion.versions.len() >= completion.results.len()
            || completion.versions.len() >= completion.block_ids.len(),
        !completion.over() ==> {
            let at = completion.versions.len() as int;
            let item = completion.results[at];
            &&& completion.next_value() is Some <==> item.key is Some && item.version is Some
            &&& completion.next_value() matches Some((block_id, key, version)) ==> block_id
                == completion.block_ids[at] && Some(key) == item.key && Some(version)
                == item.version
        },
{
}

/// Whether a value of a batch stands for an entry, with a block that holds what was staged for it,
/// unless the block was there before with other bytes.
pub open spec fn value_holds(
    before: NodeView,
    after: NodeView,
    entry: BatchEntryView,
    value: BatchValueView,
) -> bool {
    &&& value.key == entry.key
    &&& value.length == entry.receipt.length
    &&& value.checksum == entry.receipt.digest
    &&& before.arena.stagings.contains_key(entry.staging_id)
    &&& after.pending_blocks.contains_key(value.block_id)
    &&& after.arena.blocks.contains_key(value.block_id)
    &&& before.arena.blocks.contains_key(value.block_id) ==> after.arena.block_bytes(value.block_id)
        == before.arena.block_bytes(value.block_id)
    &&& !before.arena.blocks.contains_key(value.block_id) || Some(
        before.arena.block_bytes(value.block_id),
    ) == before.arena.stagings[entry.staging_id].payload ==> Some(
        after.arena.block_bytes(value.block_id),
    ) == before.arena.stagings[entry.staging_id].payload
}

proof fn lemma_batch_holds(
    node: NodeView,
    session_id: u64,
    entries: Seq<BatchEntryView>,
    operation_id: Seq<u8>,
)
    requires
        node.batch_blocks(session_id, entries, operation_id).2 is None,
        forall|id: Seq<u8>| #[trigger]
            node.arena.blocks.contains_key(id) ==> !node.arena.stagings.contains_key(
                node.arena.blocks[id].allocation_id,
            ),
    ensures
        ({
            let (next, values, _) = node.batch_blocks(session_id, entries, operation_id);
            &&& values.len() == entries.len()
            &&& forall|i: int|
                #![trigger values[i]]
                #![trigger entries[i]]
                0 <= i < entries.len() ==> value_holds(node, next, entries[i], values[i])
            &&& forall|id: Seq<u8>| #[trigger]
                node.arena.blocks.contains_key(id) ==> next.arena.blocks.contains_key(id)
                    && next.arena.block_bytes(id) == node.arena.block_bytes(id)
            &&& forall|id: Seq<u8>| #[trigger]
                next.arena.blocks.contains_key(id) ==> !next.arena.stagings.contains_key(
                    next.arena.blocks[id].allocation_id,
                )
            &&& forall|id: u64| #[trigger]
                next.arena.stagings.contains_key(id) ==> node.arena.stagings.contains_key(id)
                    && next.arena.stagings[id] == node.arena.stagings[id]
            &&& forall|id: Seq<u8>| #[trigger]
                next.arena.blocks.contains_key(id) ==> node.arena.blocks.contains_key(id)
                    || next.pending_blocks.contains_key(id)
        }),
    decreases entries.len(),
{
    let (next, values, _) = node.batch_blocks(session_id, entries, operation_id);
    if entries.len() > 0 {
        let rest = entries.drop_last();
        lemma_batch_holds(node, session_id, rest, operation_id);
        let (earlier, early_values, _) = node.batch_blocks(session_id, rest, operation_id);
        let block_id = values.last().block_id;
        let entry = entries.last();
        assert(earlier.arena.stagings.contains_key(entry.staging_id));
        assert forall|id: Seq<u8>| #[trigger] earlier.arena.blocks.contains_key(id) implies
            next.arena.blocks.contains_key(id) && next.arena.block_bytes(id)
            == earlier.arena.block_bytes(id) by {
            assert(!earlier.arena.stagings.contains_key(earlier.arena.blocks[id].allocation_id));
        }
        assert forall|i: int|
            #![trigger values[i]]
            #![trigger entries[i]]
            0 <= i < entries.len() implies value_holds(node, next, entries[i], values[i]) by {
            if i < rest.len() {
                assert(rest[i] == entries[i] && early_values[i] == values[i]);
                assert(value_holds(node, earlier, rest[i], early_values[i]));
            }
        }
    }
}

/// What blocks that are pending for a batch, and owned by it, are beside what was there before.
pub open spec fn added(before: NodeView, after: NodeView, block_ids: Seq<Seq<u8>>) -> bool {
    &&& forall|id: Seq<u8>| #[trigger]
        after.pending_blocks.contains_key(id) <==> (before.pending_blocks.contains_key(id)
            || block_ids.contains(id))
    &&& forall|id: Seq<u8>| #[trigger]
        before.pending_blocks.contains_key(id) ==> after.pending_blocks[id]
            == before.pending_blocks[id] && !block_ids.contains(id)
    &&& forall|id: Seq<u8>| #[trigger]
        block_ids.contains(id) ==> after.pending_blocks[id] == !before.arena.blocks.contains_key(id)
    &&& forall|id: Seq<u8>| #[trigger]
        after.arena.blocks.contains_key(id) <==> (before.arena.blocks.contains_key(id)
            || block_ids.contains(id))
    &&& block_ids.no_duplicates()
}

proof fn lemma_batch_blocks(
    node: NodeView,
    session_id: u64,
    entries: Seq<BatchEntryView>,
    operation_id: Seq<u8>,
)
    ensures
        ({
            let (next, values, _) = node.batch_blocks(session_id, entries, operation_id);
            added(node, next, blocks_named(values))
        }),
    decreases entries.len(),
{
    let (next, values, fault) = node.batch_blocks(session_id, entries, operation_id);
    if entries.len() > 0 {
        let rest = entries.drop_last();
        lemma_batch_blocks(node, session_id, rest, operation_id);
        let (earlier, early_values, early_fault) = node.batch_blocks(
            session_id,
            rest,
            operation_id,
        );
        let early_names = blocks_named(early_values);
        let names = blocks_named(values);
        if values.len() > early_values.len() {
            let block_id = values.last().block_id;
            assert(names =~= early_names.push(block_id));
            assert forall|id: Seq<u8>| #[trigger] names.contains(id) <==> (early_names.contains(id)
                || id == block_id) by {
                if names.contains(id) {
                    let i = choose|i: int| 0 <= i < names.len() && names[i] == id;
                    if i < early_names.len() {
                        assert(early_names[i] == id);
                    }
                }
                if early_names.contains(id) {
                    let i = choose|i: int| 0 <= i < early_names.len() && early_names[i] == id;
                    assert(names[i] == id);
                }
                assert(names[names.len() - 1] == block_id);
            }
            assert(!early_names.contains(block_id));
            assert(names.no_duplicates());
        } else {
            assert(names =~= early_names);
        }
    } else {
        assert(blocks_named(values) =~= Seq::empty());
    }
}

proof fn lemma_all_ended(before: NodeView, after: NodeView, block_ids: Seq<Seq<u8>>)
    requires
        added(before, after, block_ids),
    ensures
        after.all_ended(block_ids, true).pending_blocks =~= before.pending_blocks,
        forall|id: Seq<u8>| #[trigger]
            after.all_ended(block_ids, true).arena.blocks.contains_key(id)
                <==> before.arena.blocks.contains_key(id),
{
    lemma_ended_prefix(before, after, block_ids, block_ids.len() as int);
    assert(block_ids.take(block_ids.len() as int) =~= block_ids);
    let ended = after.all_ended(block_ids, true);
    assert(ended.pending_blocks.dom() =~= before.pending_blocks.dom());
}

proof fn lemma_ended_prefix(before: NodeView, after: NodeView, block_ids: Seq<Seq<u8>>, n: int)
    requires
        added(before, after, block_ids),
        0 <= n <= block_ids.len(),
    ensures
        ({
            let ended = after.all_ended(block_ids.take(n), true);
            &&& forall|id: Seq<u8>| #[trigger]
                ended.pending_blocks.contains_key(id) <==> (after.pending_blocks.contains_key(id)
                    && !block_ids.take(n).contains(id))
            &&& forall|id: Seq<u8>| #[trigger]
                ended.pending_blocks.contains_key(id) ==> ended.pending_blocks[id]
                    == after.pending_blocks[id]
            &&& forall|id: Seq<u8>| #[trigger]
                ended.arena.blocks.contains_key(id) <==> (after.arena.blocks.contains_key(id) && !(
                block_ids.take(n).contains(id) && !before.arena.blocks.contains_key(id)))
        }),
    decreases n,
{
    if n > 0 {
        lemma_ended_prefix(before, after, block_ids, n - 1);
        let early_ids = block_ids.take(n - 1);
        let ids = block_ids.take(n);
        let earlier = after.all_ended(early_ids, true);
        let ended = after.all_ended(ids, true);
        let block_id = block_ids[n - 1];
        assert(ids.drop_last() =~= early_ids);
        assert(block_ids.contains(block_id));
        assert(!early_ids.contains(block_id)) by {
            if early_ids.contains(block_id) {
                let i = choose|i: int| 0 <= i < early_ids.len() && early_ids[i] == block_id;
                assert(block_ids[i] == block_ids[n - 1]);
            }
        }
        assert forall|id: Seq<u8>| #[trigger] ids.contains(id) <==> (early_ids.contains(id) || id
            == block_id) by {
            if ids.contains(id) {
                let i = choose|i: int| 0 <= i < ids.len() && ids[i] == id;
                if i < n - 1 {
                    assert(early_ids[i] == id);
                }
            }
            if early_ids.contains(id) {
                let i = choose|i: int| 0 <= i < early_ids.len() && early_ids[i] == id;
                assert(ids[i] == id);
            }
            assert(ids[n - 1] == block_id);
        }
        assert(after.pending_blocks.contains_key(block_id));
        assert(earlier.pending_blocks.contains_key(block_id));
    } else {
        assert(block_ids.take(0) =~= Seq::empty());
    }
}

/// Fails where too many writes are under way already.
pub fn admit_write(under_way: usize) -> (admitted: Result<(), WorkerError>)
    ensures
        match admitted {
            Ok(_) => under_way < NODE_MAILBOX_CAPACITY,
            Err(error) => under_way >= NODE_MAILBOX_CAPACITY && error is ResourceExhausted,
        },
{
    if under_way >= NODE_MAILBOX_CAPACITY {
        Err(WorkerError::ResourceExhausted)
    } else {
        Ok(())
    }
}

impl BatchCompletion {
    /// What came of the batch, once every value has been told of.
    pub fn outcome(self) -> (outcome: MSetOutcome)
        ensures
            views(outcome.versions@) == self@.versions,
            outcome.barrier_ids@ == self@.barrier_ids,
    {
        MSetOutcome { versions: self.versions, barrier_ids: self.barrier_ids }
    }
}

impl NodeState {
    fn end_all(&mut self, values: &Vec<BatchValueCommit>, rejected: bool)
        requires
            old(self)@.wf(),
        ensures
            final(self)@.wf(),
            final(self)@ == old(self)@.all_ended(blocks_named(views(values@)), rejected),
            final(self)@.sessions == old(self)@.sessions,
    {
        let ghost before = self@;
        let ghost names = blocks_named(views(values@));
        let mut i: usize = 0;
        assert(names.take(0) =~= Seq::empty());
        while i < values.len()
            invariant
                i <= values@.len(),
                names == blocks_named(views(values@)),
                self@.wf(),
                self@ == before.all_ended(names.take(i as int), rejected),
                self@.sessions == before.sessions,
            decreases values.len() - i,
        {
            assert(names.take(i + 1).drop_last() =~= names.take(i as int));
            assert(names[i as int] == views(values@)[i as int].block_id);
            self.finish_block_preparation(&values[i].block_id, rejected);
            i = i + 1;
        }
        assert(names.take(i as int) =~= names);
    }

    /// Proposes values that a session staged, to be published together.
    pub fn mset(
        &mut self,
        session_id: u64,
        entries: Vec<BatchEntry>,
        operation_id: Vec<u8>,
    ) -> (proposed: Result<BatchCommit, WorkerError>)
        requires
            old(self)@.wf(),
        ensures
            final(self)@.wf(),
            ({
                let (next, expected) = old(self)@.batch_proposed(
                    session_id,
                    views(entries@),
                    operation_id@,
                );
                &&& final(self)@ == next
                &&& match proposed {
                    Ok(commit) => expected == Ok::<BatchCommitView, WorkerError>(commit@),
                    Err(error) => expected == Err::<BatchCommitView, WorkerError>(error),
                }
            }),
    {
        let ghost before = self@;
        let ghost all = views(entries@);
        match validate_batch_write(&entries) {
            Ok(_) => {},
            Err(error) => return Err(error),
        }
        match validate_operation_id(&operation_id) {
            Ok(_) => {},
            Err(error) => return Err(error),
        }
        match self.sessions.live_session(session_id) {
            Ok(_) => {},
            Err(error) => return Err(error),
        }
        if !self.has_metadata {
            return Err(WorkerError::MetadataUnavailable);
        }
        let mut values: Vec<BatchValueCommit> = Vec::with_capacity(entries.len());
        let mut index: usize = 0;
        assert(all.take(0) =~= Seq::empty());
        assert(views(values@) =~= Seq::empty());
        while index < entries.len()
            invariant
                index <= entries@.len(),
                all == views(entries@),
                before == old(self)@,
                batch_fault(all) is None,
                operation_fault(operation_id@) is None,
                before.sessions.live(session_id),
                before.has_metadata,
                self@.wf(),
                self@.sessions == before.sessions,
                self@.node_id == before.node_id,
                self@.has_metadata == before.has_metadata,
                before.batch_blocks(session_id, all.take(index as int), operation_id@) == (
                    self@,
                    views(values@),
                    None::<WorkerError>,
                ),
            decreases entries.len() - index,
        {
            let ghost so_far = values@;
            let entry: &BatchEntry = &entries[index];
            proof {
                lemma_views_take(entries@, index as int);
                if before.batch_blocks(
                    session_id,
                    all.take(index + 1),
                    operation_id@,
                ).2 is Some {
                    lemma_batch_fault_stays(
                        before,
                        session_id,
                        all,
                        operation_id@,
                        index + 1,
                    );
                }
            }
            let counted: HostReceipt = match self.receipt_for_session(session_id, &entry.receipt) {
                Ok(counted) => counted,
                Err(error) => return Err(error),
            };
            let name: Vec<u8> = match derive_batch_operation_id(&operation_id, index) {
                Ok(name) => name,
                Err(error) => return Err(error),
            };
            let block_id: Vec<u8> = block_identity(self.node_id.as_str(), &name);
            let owns_block: bool = match self.check_block_preparation(&block_id) {
                Ok(owns) => owns,
                Err(error) => {
                    self.end_all(&values, true);
                    return Err(error);
                },
            };
            match self.arena.commit_staging(
                session_id,
                entry.staging_id,
                &counted,
                copy_bytes(&block_id),
            ) {
                Ok(_) => {},
                Err(error) => {
                    self.end_all(&values, true);
                    return Err(map_arena_error(error));
                },
            }
            self.pending_blocks.insert(copy_bytes(&block_id), owns_block);
            values.push(
                BatchValueCommit {
                    key: copy_bytes(&entry.key),
                    block_id,
                    length: counted.length,
                    checksum: counted.digest,
                    operation_id: name,
                },
            );
            proof {
                lemma_views_push(so_far, values@.last());
            }
            index = index + 1;
        }
        assert(all.take(index as int) =~= all);
        Ok(BatchCommit { session_id, values, operation_id })
    }

    /// Takes what the metadata service says of a batch. Where it was published, the clients are
    /// told next, value after value.
    pub fn begin_batch_completion(
        &mut self,
        commit: &BatchCommit,
        committed: Result<Vec<BatchItemResult>, DmsError>,
    ) -> (begun: Result<BatchCompletion, WorkerError>)
        requires
            old(self)@.wf(),
        ensures
            final(self)@.wf(),
            final(self)@.sessions == old(self)@.sessions,
            match committed {
                Ok(results) => {
                    &&& final(self)@ == old(self)@.all_ended(
                        blocks_named(commit@.values),
                        false,
                    )
                    &&& begun matches Ok(completion) && completion@ == (CompletionView {
                        session_id: commit@.session_id,
                        block_ids: blocks_named(commit@.values),
                        results: views(results@),
                        versions: Seq::empty(),
                        barrier_ids: Seq::empty(),
                    })
                },
                Err(error) => {
                    &&& final(self)@ == old(self)@.all_ended(
                        blocks_named(commit@.values),
                        proves_unpublished(error),
                    )
                    &&& begun matches Err(got) && got == WorkerError::Stable(error)
                },
            },
    {
        let rejected: bool = match &committed {
            Ok(_) => false,
            Err(error) => is_definitive_metadata_rejection(error),
        };
        self.end_all(&commit.values, rejected);
        let results: Vec<BatchItemResult> = match committed {
            Ok(results) => results,
            Err(error) => return Err(map_metadata_error(error)),
        };
        let mut block_ids: Vec<Vec<u8>> = Vec::with_capacity(commit.values.len());
        let ghost names = blocks_named(views(commit.values@));
        let mut i: usize = 0;
        while i < commit.values.len()
            invariant
                i <= commit.values@.len(),
                names == blocks_named(views(commit.values@)),
                views(block_ids@) =~= names.take(i as int),
            decreases commit.values.len() - i,
        {
            let ghost so_far = block_ids@;
            block_ids.push(copy_bytes(&commit.values[i].block_id));
            proof {
                lemma_views_push(so_far, block_ids@.last());
            }
            i = i + 1;
        }
        let versions: Vec<KeySetOutcome> = Vec::new();
        let barrier_ids: Vec<u64> = Vec::new();
        assert(views(block_ids@) =~= names);
        assert(views(versions@) =~= Seq::empty());
        assert(barrier_ids@ =~= Seq::empty());
        Ok(
            BatchCompletion {
                session_id: commit.session_id,
                block_ids,
                results,
                versions,
                barrier_ids,
            },
        )
    }

    /// Tells the clients of the next value of a batch. The caller sends the deliveries and goes on
    /// with those that failed. Without a value left there is nothing to tell.
    pub fn announce_batch_value(&mut self, completion: &BatchCompletion, now: u64) -> (announced:
        Result<Option<Broadcast>, WorkerError>)
        requires
            old(self)@.wf(),
            old(self)@.can_broadcast(),
        ensures
            final(self)@.wf(),
            if completion@.over() {
                final(self)@ == old(self)@ && (announced matches Ok(None))
            } else {
                match completion@.next_value() {
                    None => final(self)@ == old(self)@ && (announced matches Err(error)
                        && error is MetadataUnavailable),
                    Some((block_id, key, version)) => {
                        let told = (NodeView {
                            arena: old(self)@.arena.committed(block_id, version),
                            ..old(self)@
                        });
                        &&& final(self)@ == told.broadcast(key, version, now)
                        &&& announced matches Ok(Some(sent)) && told.announced(
                            key,
                            version,
                            now,
                            sent,
                        )
                    },
                }
            },
    {
        let index: usize = completion.versions.len();
        if index >= completion.results.len() || index >= completion.block_ids.len() {
            return Ok(None);
        }
        let item: &BatchItemResult = &completion.results[index];
        assert(completion@.results[index as int] == item@);
        assert(completion@.block_ids[index as int] == completion.block_ids@[index as int]@);
        match (&item.key, item.version) {
            (Some(key), Some(version)) => {
                self.arena.mark_committed(&completion.block_ids[index], version);
                Ok(Some(self.broadcast_invalidation(key, version, now)))
            },
            _ => Err(WorkerError::MetadataUnavailable),
        }
    }

    /// Goes on after the clients were told of a value of a batch, but for those that could not be.
    pub fn settle_batch_value(
        &mut self,
        completion: &mut BatchCompletion,
        barrier_id: Option<u64>,
        failed: &Vec<u64>,
    ) -> (settled: Result<(), WorkerError>)
        requires
            old(self)@.wf(),
            !old(completion)@.over(),
            old(completion)@.next_value() is Some,
        ensures
            final(self)@.wf(),
            ({
                let (_, key, version) = old(completion)@.next_value()->0;
                let told = old(self)@.undelivered(failed@);
                match (told.interest_noted(Some(old(completion)@.session_id), key), settled) {
                    (Err(error), Err(got)) => final(self)@ == told && got == error
                        && final(completion)@ == old(completion)@,
                    (Ok(next), Ok(_)) => final(self)@ == next && final(completion)@ == (
                    CompletionView {
                        versions: old(completion)@.versions.push((key, version)),
                        barrier_ids: match barrier_id {
                            Some(barrier_id) => old(completion)@.barrier_ids.push(barrier_id),
                            None => old(completion)@.barrier_ids,
                        },
                        ..old(completion)@
                    }),
                    _ => false,
                }
            }),
            ({
                let (_, key, version) = old(completion)@.next_value()->0;
                let session_id = old(completion)@.session_id;
                let session = old(self)@.sessions.sessions[session_id];
                &&& settled is Ok <==> old(self)@.sessions.live(session_id) && !failed@.contains(
                    session_id,
                )
                &&& settled is Ok && session.cache_until is Some
                    ==> final(self)@.sessions.holders(key).contains(session_id)
                &&& settled is Ok ==> final(completion)@.versions.last() == (key, version)
                    && final(completion)@.versions.len() == old(completion)@.versions.len() + 1
            }),
    {
        let ghost before = completion@;
        let ghost so_far = completion.versions@;
        assert(failed@.to_set().contains(before.session_id) <==> failed@.contains(
            before.session_id,
        ));
        let index: usize = completion.versions.len();
        let item: &BatchItemResult = &completion.results[index];
        assert(before.results[index as int] == item@);
        self.delivery_failed(failed);
        let (key, version): (Vec<u8>, u64) = match (&item.key, item.version) {
            (Some(key), Some(version)) => (copy_bytes(key), version),
            _ => return Err(WorkerError::MetadataUnavailable),
        };
        match self.sessions.register_cache_interest(completion.session_id, &key) {
            Ok(_) => {},
            Err(error) => return Err(error),
        }
        if let Some(barrier_id) = barrier_id {
            completion.barrier_ids.push(barrier_id);
        }
        completion.versions.push(KeySetOutcome { key, version });
        proof {
            lemma_views_push(so_far, completion.versions@.last());
        }
        Ok(())
    }

    /// Fails for a deletion that cannot be proposed.
    pub fn check_delete(&self, session_id: Option<u64>, key: &Vec<u8>, operation_id: &Vec<u8>) -> (
    checked: Result<(), WorkerError>)
        ensures
            checked == crate::limits::checked(
                self@.delete_fault(session_id, key@, operation_id@),
            ),
    {
        match validate_user_key(key) {
            Ok(_) => {},
            Err(error) => return Err(error),
        }
        match validate_operation_id(operation_id) {
            Ok(_) => {},
            Err(error) => return Err(error),
        }
        if let Some(session_id) = session_id {
            match self.sessions.live_session(session_id) {
                Ok(_) => {},
                Err(error) => return Err(error),
            }
        }
        if !self.has_metadata {
            return Err(WorkerError::MetadataUnavailable);
        }
        Ok(())
    }

    /// Takes what the metadata service says of a deletion: whether it changed anything, and the
    /// version. Where it did, the clients have to be told.
    pub fn complete_delete(
        &mut self,
        key: &Vec<u8>,
        committed: Result<(bool, u64), DmsError>,
        now: u64,
    ) -> (completed: Result<(DeleteOutcome, Option<Broadcast>), WorkerError>)
        requires
            old(self)@.wf(),
            old(self)@.can_broadcast(),
        ensures
            final(self)@.wf(),
            match committed {
                Err(error) => final(self)@ == old(self)@ && (completed matches Err(got) && got
                    == WorkerError::Stable(error)),
                Ok((false, version)) => final(self)@ == old(self)@ && (completed matches Ok(
                    (outcome, None),
                ) && outcome == (DeleteOutcome { deleted: false, version, barrier_id: None })),
                Ok((true, version)) => {
                    &&& final(self)@ == old(self)@.broadcast(key@, version, now)
                    &&& completed matches Ok((outcome, Some(sent))) && old(self)@.announced(
                        key@,
                        version,
                        now,
                        sent,
                    ) && outcome == (DeleteOutcome {
                        deleted: true,
                        version,
                        barrier_id: sent.barrier_id,
                    })
                },
            },
    {
        match committed {
            Err(error) => Err(map_metadata_error(error)),
            Ok((changed, version)) => {
                if !changed {
                    return Ok((DeleteOutcome { deleted: false, version, barrier_id: None }, None));
                }
                let sent = self.broadcast_invalidation(key, version, now);
                let outcome = DeleteOutcome {
                    deleted: true,
                    version,
                    barrier_id: sent.barrier_id,
                };
                Ok((outcome, Some(sent)))
            },
        }
    }
}

proof fn lemma_batch_fault_stays(
    node: NodeView,
    session_id: u64,
    entries: Seq<BatchEntryView>,
    operation_id: Seq<u8>,
    n: int,
)
    requires
        0 <= n <= entries.len(),
        node.batch_blocks(session_id, entries.take(n), operation_id).2 is Some,
    ensures
        node.batch_blocks(session_id, entries, operation_id) == node.batch_blocks(
            session_id,
            entries.take(n),
            operation_id,
        ),
    decreases entries.len() - n,
{
    if n < entries.len() {
        assert(entries.take(n + 1).drop_last() =~= entries.take(n));
        lemma_batch_fault_stays(node, session_id, entries, operation_id, n + 1);
    } else {
        assert(entries.take(n) =~= entries);
    }
}

} // verus!
