//! Blocks that come from other nodes and blocks that go: imports and retirements, as the owner of
//! the node's state carries them out.
use crate::bytes::{copy_bytes, same_bytes};
#[allow(unused_imports)]
use crate::bytes::{lemma_views_push, lemma_views_take, views};
use crate::digest::digest;
#[allow(unused_imports)]
use crate::digest::sha256_of;
#[allow(unused_imports)]
use crate::error::arena_fault;
use crate::error::{map_arena_error, WorkerError};
use crate::node::{append_numbers, NodeState};
#[allow(unused_imports)]
use crate::node::{blocks_of, final_waiters_of, lemma_blocks_of, prepare_waiters_of, NodeView};
use crate::payload::Payload;
use crate::peer_import::{
    ImportStart, PeerImportFailure, PeerImportFlight, PeerImportWork, PeerPullSpec,
};
#[allow(unused_imports)]
use crate::peer_import::{FlightView, ImportsView, PullSpecView};
use crate::pull_plan::PeerImportCompletion;
#[allow(unused_imports)]
use crate::pull_plan::ImportResultView;
use crate::retirement::RetirementReply;
#[allow(unused_imports)]
use crate::retirement::RetirementsView;
use crate::table::KeySet;
#[allow(unused_imports)]
use crate::table::{lemma_keys_list, lists};
use vstd::prelude::*;

verus! {

/// An answer to a probe of the node.
#[derive(Debug, PartialEq, Eq)]
pub struct PeerProbeResult {
    pub serving_node_id: String,
    pub nonce: Vec<u8>,
}

/// A block or a part of it, on its way to another node.
#[derive(Debug)]
pub struct PeerBlockResult {
    pub serving_node_id: String,
    pub block_id: Vec<u8>,
    pub checksum: Vec<u8>,
    /// The length of the whole block.
    pub length: u64,
    pub payload: Payload,
}

/// A block or a part of it, as a value.
#[verifier::ext_equal]
pub struct BlockResultView {
    pub serving_node_id: Seq<char>,
    pub block_id: Seq<u8>,
    pub checksum: Seq<u8>,
    pub length: u64,
    pub payload: Seq<u8>,
}

impl View for PeerBlockResult {
    type V = BlockResultView;

    open spec fn view(&self) -> BlockResultView {
        BlockResultView {
            serving_node_id: self.serving_node_id@,
            block_id: self.block_id@,
            checksum: self.checksum@,
            length: self.length,
            payload: self.payload@,
        }
    }
}

impl NodeView {
    /// The last read that has begun.
    pub open spec fn last_scope(self) -> u64 {
        if self.next_read_scope == 0 {
            0
        } else {
            (self.next_read_scope - 1) as u64
        }
    }

    /// Whether a read may ask for a block to be imported.
    pub open spec fn admits(self, read_scope_id: u64, block_id: Seq<u8>) -> bool {
        self.scopes.contains(read_scope_id) && !self.retirements.blocks_new_reads(
            block_id,
            read_scope_id,
        )
    }

    /// The length and the digest of a block that is here.
    pub open spec fn local_block(self, block_id: Seq<u8>) -> Option<(u64, Seq<u8>)> {
        if self.arena.blocks.contains_key(block_id) {
            Some((self.arena.blocks[block_id].length, self.arena.blocks[block_id].digest))
        } else {
            None
        }
    }

    /// The state after a read asked for a block, and what comes of it.
    pub open spec fn import_asked(
        self,
        read_scope_id: u64,
        spec: PullSpecView,
        waiter: u64,
        closed: Set<u64>,
    ) -> (NodeView, ImportStart) {
        let (imports, start) = self.imports.asked(
            read_scope_id,
            spec,
            waiter,
            closed,
            self.admits(read_scope_id, spec.block_id),
            self.local_block(spec.block_id),
        );
        (NodeView { imports, ..self }, start)
    }

    /// The state after a read asked for some blocks, one after the other, and what comes of each.
    pub open spec fn imports_asked(
        self,
        read_scope_id: u64,
        requests: Seq<(PullSpecView, u64)>,
        closed: Set<u64>,
    ) -> (NodeView, Seq<ImportStart>)
        decreases requests.len(),
    {
        if requests.len() == 0 {
            (self, Seq::empty())
        } else {
            let (earlier, starts) = self.imports_asked(
                read_scope_id,
                requests.drop_last(),
                closed,
            );
            let (next, start) = earlier.import_asked(
                read_scope_id,
                requests.last().0,
                requests.last().1,
                closed,
            );
            (next, starts.push(start))
        }
    }

    /// Whether `next` is the state after an import ended, `told` are those who waited for it, and
    /// `waiters` are those whose retirement went on.
    pub open spec fn import_ended(
        self,
        block_id: Seq<u8>,
        attempt: u64,
        failure: Option<PeerImportFailure>,
        next: NodeView,
        told: Seq<u64>,
        waiters: Seq<u64>,
    ) -> bool {
        if !self.imports.attempting(block_id, attempt) {
            next == self && told.len() == 0 && waiters.len() == 0
        } else {
            &&& told == self.imports.flights[block_id].waiters
            &&& (NodeView {
                imports: self.imports.ended(block_id, attempt, failure, self.last_scope()),
                ..self
            }).advanced(next, waiters)
        }
    }

    /// The imports that a task carries out.
    pub open spec fn carried_by(self, task_id: u64) -> Set<Seq<u8>> {
        Set::new(
            |id: Seq<u8>|
                self.imports.flights.contains_key(id) && self.imports.flights[id].task_id == Some(
                    task_id,
                ),
        )
    }

    /// Whether a trace tells how the imports of a lost task ended, one after the other: the states
    /// in between, and who was told up to then.
    pub open spec fn imports_lost(
        self,
        lost: Seq<Seq<u8>>,
        trace: Seq<(NodeView, Seq<u64>, Seq<u64>)>,
    ) -> bool {
        &&& trace.len() == lost.len() + 1
        &&& trace[0] == (self, Seq::<u64>::empty(), Seq::<u64>::empty())
        &&& forall|i: int|
            #![trigger lost[i]]
            0 <= i < lost.len() ==> ended_step(
                lost[i],
                self.imports.flights[lost[i]].attempt,
                lost_failure(),
                trace[i],
                trace[i + 1],
            )
    }

    /// Whether a trace tells how some imports ended, one after the other, with those who waited
    /// for each: the states in between, and those whose retirement went on up to then.
    pub open spec fn imports_finished(
        self,
        completed: Seq<ImportResultView>,
        told: Seq<Seq<u64>>,
        trace: Seq<(NodeView, Seq<u64>)>,
    ) -> bool {
        &&& told.len() == completed.len()
        &&& trace.len() == completed.len() + 1
        &&& trace[0] == (self, Seq::<u64>::empty())
        &&& forall|i: int|
            #![trigger completed[i]]
            0 <= i < completed.len() ==> finished_step(
                completed[i],
                told[i],
                trace[i],
                trace[i + 1],
            )
    }

    /// The state after the bytes of a block came from another node, and whether the metadata
    /// service should hear of it; or why they were not taken.
    pub open spec fn received(
        self,
        read_scope_id: u64,
        block_id: Seq<u8>,
        bytes: Seq<u8>,
        checksum: Seq<u8>,
        length: u64,
    ) -> Result<(NodeView, bool), WorkerError> {
        if length != bytes.len() || self.retirements.blocks_new_reads(block_id, read_scope_id) || (
        checksum.len() > 0 && checksum != sha256_of(bytes)) {
            Err(WorkerError::Conflict)
        } else {
            match self.arena.stored(block_id, bytes, sha256_of(bytes)) {
                Ok(arena) => Ok(
                    (
                        NodeView { arena, ..self },
                        !self.retirements.retiring.contains(block_id),
                    ),
                ),
                Err(error) => Err(arena_fault(error)),
            }
        }
    }

    /// Whether `next` is the state after a request to prepare a retirement, with what the request
    /// is told and whose retirements went on.
    pub open spec fn prepare_requested(
        self,
        id: Seq<u8>,
        block_ids: Seq<Seq<u8>>,
        waiter: u64,
        next: NodeView,
        reply: RetirementReply,
        waiters: Seq<u64>,
    ) -> bool {
        match self.retirements.early_reply(id, block_ids) {
            Some(early) => next == self && reply == early && waiters.len() == 0,
            None => {
                let (retirements, answer) = self.retirements.prepare_asked(
                    id,
                    block_ids,
                    waiter,
                    self.last_scope(),
                );
                let asked = NodeView {
                    cache: self.cache.invalidated_blocks(block_ids),
                    retirements,
                    ..self
                };
                &&& reply == answer
                &&& if answer is Waiting {
                    asked.advanced(next, waiters)
                } else {
                    next == asked && waiters.len() == 0
                }
            },
        }
    }

    /// Whether `next` is the state after a request to end a retirement, with what the request is
    /// told and whose retirements went on.
    pub open spec fn final_requested(
        self,
        id: Seq<u8>,
        block_ids: Seq<Seq<u8>>,
        waiter: u64,
        next: NodeView,
        reply: RetirementReply,
        waiters: Seq<u64>,
    ) -> bool {
        match self.retirements.early_reply(id, block_ids) {
            Some(early) => next == self && reply == early && waiters.len() == 0,
            None => {
                let (retirements, answer) = self.retirements.final_asked(
                    id,
                    block_ids,
                    waiter,
                    self.last_scope(),
                );
                let asked = NodeView { retirements, ..self };
                &&& reply == answer
                &&& if answer is Waiting {
                    asked.advanced(next, waiters)
                } else {
                    next == asked && waiters.len() == 0
                }
            },
        }
    }

    /// A block, or a range of one, for another node; or why it cannot be had.
    pub open spec fn served(
        self,
        source_node_id: Seq<char>,
        block_id: Seq<u8>,
        range: Option<(u64, u64)>,
    ) -> Result<BlockResultView, WorkerError> {
        if source_node_id.len() == 0 || block_id.len() == 0 {
            Err(WorkerError::InvalidArgument("source node id and block id are required"))
        } else {
            match self.arena.opened(block_id, range) {
                Err(error) => Err(arena_fault(error)),
                Ok((ticket, length)) => {
                    let payload = self.arena.block_bytes(block_id).subrange(
                        ticket.offset as int,
                        ticket.offset + ticket.length,
                    );
                    Ok(
                        BlockResultView {
                            serving_node_id: self.node_id,
                            block_id,
                            checksum: sha256_of(payload),
                            length,
                            payload,
                        },
                    )
                },
            }
        }
    }
}

/// The failure of an import whose task was lost.
pub open spec fn lost_failure() -> Option<PeerImportFailure> {
    Some(PeerImportFailure { error: WorkerError::TransferUnavailable, location_failure: false })
}

/// Whether the end of an import leads from one point of a trace to the next.
pub open spec fn ended_step(
    block_id: Seq<u8>,
    attempt: u64,
    failure: Option<PeerImportFailure>,
    from: (NodeView, Seq<u64>, Seq<u64>),
    to: (NodeView, Seq<u64>, Seq<u64>),
) -> bool {
    exists|told: Seq<u64>, waiters: Seq<u64>| #[trigger]
        from.0.import_ended(block_id, attempt, failure, to.0, told, waiters) && to.1
            == from.1 + told && to.2 == from.2 + waiters
}

/// Whether the end of an import leads from one point of a trace to the next, where some waited for
/// it.
pub open spec fn finished_step(
    result: ImportResultView,
    told: Seq<u64>,
    from: (NodeView, Seq<u64>),
    to: (NodeView, Seq<u64>),
) -> bool {
    exists|waiters: Seq<u64>| #[trigger]
        from.0.import_ended(
            result.block_id,
            result.attempt,
            result.failure,
            to.0,
            told,
            waiters,
        ) && to.1 == from.1 + waiters
}

/// The imports after a task took some of them on.
pub open spec fn taken_on(imports: ImportsView, block_ids: Seq<Seq<u8>>, task_id: u64) -> ImportsView
    decreases block_ids.len(),
{
    if block_ids.len() == 0 {
        imports
    } else {
        let earlier = taken_on(imports, block_ids.drop_last(), task_id);
        if earlier.flights.contains_key(block_ids.last()) {
            ImportsView {
                flights: earlier.flights.insert(
                    block_ids.last(),
                    FlightView {
                        task_id: Some(task_id),
                        ..earlier.flights[block_ids.last()]
                    },
                ),
                ..earlier
            }
        } else {
            earlier
        }
    }
}

/// The imports that have to be carried out after some requests.
pub open spec fn work_of(requests: Seq<(PullSpecView, u64)>, starts: Seq<ImportStart>) -> Seq<
    (PullSpecView, u64),
>
    decreases requests.len(),
{
    if requests.len() == 0 {
        Seq::empty()
    } else {
        let earlier = work_of(requests.drop_last(), starts.drop_last());
        match starts.last() {
            ImportStart::Started(attempt) => earlier.push((requests.last().0, attempt)),
            _ => earlier,
        }
    }
}


/// A failed import is seen by every read that was under way, and by no read that begins later, as
/// long as the failure is not one that another location can mend.
pub proof fn a_failed_import_is_seen_by_the_reads_under_way(
    before: NodeView,
    block_id: Seq<u8>,
    attempt: u64,
    failure: PeerImportFailure,
    next: NodeView,
    told: Seq<u64>,
    waiters: Seq<u64>,
    scope: u64,
)
    requires
        before.wf(),
        before.next_read_scope > 0,
        before.imports.attempting(block_id, attempt),
        !failure.location_failure,
        before.import_ended(block_id, attempt, Some(failure), next, told, waiters),
    ensures
        before.scopes.contains(scope) ==> next.imports.failure(block_id, scope) == Some(failure),
        scope >= before.next_read_scope ==> next.imports.failure(block_id, scope) is None,
{
    let ended = before.imports.ended(block_id, attempt, Some(failure), before.last_scope());
    if before.scopes.contains(scope) {
        assert(scope <= before.last_scope());
        assert(ended.failures.contains_key(block_id));
        assert(next.imports.failures.contains_key(block_id));
    }
}

/// While a read is under way, no retirement that was asked for later is prepared, and none of its
/// blocks goes: whoever asked waits until the read ends.
pub proof fn a_retirement_waits_for_the_reads_under_way(
    node: NodeView,
    next: NodeView,
    waiters: Seq<u64>,
    id: Seq<u8>,
    scope: u64,
)
    requires
        node.wf(),
        node.advanced(next, waiters),
        node.scopes.contains(scope),
        node.retirements.pending.contains_key(id),
        !node.retirements.pending[id].prepared,
        scope <= node.retirements.pending[id].cutoff_scope,
    ensures
        next.retirements.pending.contains_key(id),
        next.retirements.pending[id] == node.retirements.pending[id],
{
    let (prepared, ended) = choose|prepared: Seq<Seq<u8>>, ended: Seq<Seq<u8>>|
        #![trigger lists(prepared, node.now_prepared()), lists(ended, node.now_ended())]
        lists(prepared, node.now_prepared()) && lists(ended, node.now_ended()) && next
            == node.with_retirements(ended) && waiters == crate::node::prepare_waiters_of(
            node.retirements.pending,
            prepared,
        ) + crate::node::final_waiters_of(node.pending_after(), ended);
    assert(!node.drained(node.retirements.pending[id].cutoff_scope));
    assert(!node.now_ended().contains(id));
    assert(!ended.to_set().contains(id));
}

/// After some blocks were asked for, the imports to be carried out are exactly those that began, each with
/// its block and its attempt, in the order in which they were asked for. A task that takes imports on
/// is noted for these and for no others, and nothing else of them changes.
pub proof fn what_began_is_carried_out(
    requests: Seq<(PullSpecView, u64)>,
    starts: Seq<ImportStart>,
    imports: ImportsView,
    block_ids: Seq<Seq<u8>>,
    task_id: u64,
    at: int,
    block_id: Seq<u8>,
)
    requires
        requests.len() == starts.len(),
    ensures
        0 <= at < requests.len() && (starts[at] is Started) ==> work_of(requests, starts).contains(
            (requests[at].0, starts[at]->Started_0),
        ),
        0 <= at < work_of(requests, starts).len() ==> began(
            requests,
            starts,
            work_of(requests, starts)[at],
        ),
        ({
            let next = taken_on(imports, block_ids, task_id);
            &&& next.flights.contains_key(block_id) <==> imports.flights.contains_key(block_id)
            &&& imports.flights.contains_key(block_id) ==> next.flights[block_id] == (FlightView {
                task_id: if block_ids.contains(block_id) {
                    Some(task_id)
                } else {
                    imports.flights[block_id].task_id
                },
                ..imports.flights[block_id]
            })
            &&& next.failures == imports.failures
            &&& next.bytes == imports.bytes
        }),
{
    lemma_work_of(requests, starts);
    lemma_taken_on(imports, block_ids, task_id, block_id);
}

/// Whether some work is that of a request that began an import.
pub open spec fn began(
    requests: Seq<(PullSpecView, u64)>,
    starts: Seq<ImportStart>,
    work: (PullSpecView, u64),
) -> bool {
    exists|i: int|
        #![trigger requests[i]]
        0 <= i < requests.len() && requests[i].0 == work.0 && starts[i] == ImportStart::Started(
            work.1,
        )
}

proof fn lemma_work_of(requests: Seq<(PullSpecView, u64)>, starts: Seq<ImportStart>)
    requires
        requests.len() == starts.len(),
    ensures
        ({
            let work = work_of(requests, starts);
            &&& forall|i: int|
                #![trigger requests[i]]
                0 <= i < requests.len() && (starts[i] is Started) ==> work.contains(
                    (requests[i].0, starts[i]->Started_0),
                )
            &&& forall|j: int|
                #![trigger work[j]]
                0 <= j < work.len() ==> began(requests, starts, work[j])
        }),
    decreases requests.len(),
{
    if requests.len() > 0 {
        let rest = requests.drop_last();
        let early = starts.drop_last();
        lemma_work_of(rest, early);
        let work = work_of(requests, starts);
        let earlier = work_of(rest, early);
        let last = requests.len() - 1;
        assert forall|i: int|
            #![trigger requests[i]]
            0 <= i < requests.len() && (starts[i] is Started) implies work.contains(
            (requests[i].0, starts[i]->Started_0),
        ) by {
            let item = (requests[i].0, starts[i]->Started_0);
            if i < last {
                assert(rest[i] == requests[i] && early[i] == starts[i]);
                let j = choose|j: int| 0 <= j < earlier.len() && earlier[j] == item;
                assert(work[j] == item);
            } else {
                assert(work[work.len() - 1] == item);
            }
        }
        assert forall|j: int| #![trigger work[j]] 0 <= j < work.len() implies began(
            requests,
            starts,
            work[j],
        ) by {
            if j < earlier.len() {
                assert(work[j] == earlier[j]);
                assert(began(rest, early, earlier[j]));
                let i = choose|i: int|
                    #![trigger rest[i]]
                    0 <= i < rest.len() && rest[i].0 == earlier[j].0 && early[i]
                        == ImportStart::Started(earlier[j].1);
                assert(requests[i] == rest[i] && starts[i] == early[i]);
            } else {
                assert(requests[last] == requests.last() && starts[last] == starts.last());
            }
        }
    }
}

proof fn lemma_taken_on(
    imports: ImportsView,
    block_ids: Seq<Seq<u8>>,
    task_id: u64,
    block_id: Seq<u8>,
)
    ensures
        ({
            let next = taken_on(imports, block_ids, task_id);
            &&& next.flights.contains_key(block_id) <==> imports.flights.contains_key(block_id)
            &&& imports.flights.contains_key(block_id) ==> next.flights[block_id] == (FlightView {
                task_id: if block_ids.contains(block_id) {
                    Some(task_id)
                } else {
                    imports.flights[block_id].task_id
                },
                ..imports.flights[block_id]
            })
            &&& next.failures == imports.failures
            &&& next.bytes == imports.bytes
        }),
    decreases block_ids.len(),
{
    if block_ids.len() > 0 {
        let rest = block_ids.drop_last();
        lemma_taken_on(imports, rest, task_id, block_id);
        assert(block_ids[block_ids.len() - 1] == block_ids.last());
        assert(block_ids.contains(block_id) <==> rest.contains(block_id) || block_ids.last()
            == block_id) by {
            if rest.contains(block_id) {
                let i = choose|i: int| 0 <= i < rest.len() && rest[i] == block_id;
                assert(block_ids[i] == block_id);
            }
            if block_ids.contains(block_id) && block_ids.last() != block_id {
                let i = choose|i: int| 0 <= i < block_ids.len() && block_ids[i] == block_id;
                assert(rest[i] == block_id);
            }
        }
    }
}

/// When a task is lost, every import that it carried out ends, everybody who waited for one of them is
/// told, and no other import is touched.
pub proof fn a_lost_task_ends_its_imports(
    before: NodeView,
    lost: Seq<Seq<u8>>,
    trace: Seq<(NodeView, Seq<u64>, Seq<u64>)>,
    at: int,
    waiter: u64,
    other: Seq<u8>,
)
    requires
        before.imports_lost(lost, trace),
        lost.no_duplicates(),
        forall|i: int| #![trigger lost[i]] 0 <= i < lost.len() ==> before.imports.flights.contains_key(
            lost[i],
        ),
    ensures
        ({
            let after = trace[lost.len() as int];
            &&& 0 <= at < lost.len() ==> !after.0.imports.flights.contains_key(lost[at])
            &&& 0 <= at < lost.len() && before.imports.flights[lost[at]].waiters.contains(waiter)
                ==> after.1.contains(waiter)
            &&& !lost.contains(other) ==> after.0.imports.flights.contains_key(other)
                == before.imports.flights.contains_key(other)
            &&& !lost.contains(other) && before.imports.flights.contains_key(other)
                ==> after.0.imports.flights[other] == before.imports.flights[other]
            &&& after.0.sessions == before.sessions
            &&& after.0.scopes == before.scopes
        }),
{
    lemma_lost(before, lost, trace, lost.len() as int);
    let after = trace[lost.len() as int];
    if 0 <= at < lost.len() {
        assert(lost.take(lost.len() as int) =~= lost);
        assert(lost.contains(lost[at]));
    }
    assert(lost.take(lost.len() as int) =~= lost);
}

proof fn lemma_lost(
    before: NodeView,
    lost: Seq<Seq<u8>>,
    trace: Seq<(NodeView, Seq<u64>, Seq<u64>)>,
    n: int,
)
    requires
        before.imports_lost(lost, trace),
        lost.no_duplicates(),
        0 <= n <= lost.len(),
        forall|i: int| #![trigger lost[i]] 0 <= i < lost.len() ==> before.imports.flights.contains_key(
            lost[i],
        ),
    ensures
        trace[n].0.sessions == before.sessions,
        trace[n].0.scopes == before.scopes,
        forall|id: Seq<u8>| #[trigger]
            trace[n].0.imports.flights.contains_key(id) <==> before.imports.flights.contains_key(id)
                && !lost.take(n).contains(id),
        forall|id: Seq<u8>| #[trigger]
            trace[n].0.imports.flights.contains_key(id) ==> trace[n].0.imports.flights[id]
                == before.imports.flights[id],
        forall|i: int, waiter: u64|
            #![trigger lost[i], trace[n].1.contains(waiter)]
            0 <= i < n && before.imports.flights[lost[i]].waiters.contains(waiter)
                ==> trace[n].1.contains(waiter),
    decreases n,
{
    if n > 0 {
        let last = n - 1;
        lemma_lost(before, lost, trace, last);
        let id = lost[last];
        let attempt = before.imports.flights[id].attempt;
        let from = trace[last];
        let to = trace[n];
        assert(ended_step(id, attempt, lost_failure(), from, to));
        let (told, waiters) = choose|told: Seq<u64>, waiters: Seq<u64>| #[trigger]
            from.0.import_ended(id, attempt, lost_failure(), to.0, told, waiters) && to.1 == from.1
                + told && to.2 == from.2 + waiters;
        assert(!lost.take(last).contains(id)) by {
            if lost.take(last).contains(id) {
                let i = choose|i: int| 0 <= i < last && lost.take(last)[i] == id;
                assert(lost[i] == lost[last]);
            }
        }
        assert(from.0.imports.flights.contains_key(id));
        assert(from.0.imports.attempting(id, attempt));
        assert forall|other: Seq<u8>| lost.take(n).contains(other) <==> (lost.take(
            last,
        ).contains(other) || other == id) by {
            assert(lost.take(n) =~= lost.take(last).push(id));
            if lost.take(last).contains(other) {
                let i = choose|i: int| 0 <= i < last && lost.take(last)[i] == other;
                assert(lost.take(n)[i] == other);
            }
            assert(lost.take(n)[last] == id);
        }
        assert forall|i: int, waiter: u64|
            #![trigger lost[i], to.1.contains(waiter)]
            0 <= i < n && before.imports.flights[lost[i]].waiters.contains(
                waiter,
            ) implies to.1.contains(waiter) by {
            if i < last {
                assert(from.1.contains(waiter));
                let j = choose|j: int| 0 <= j < from.1.len() && from.1[j] == waiter;
                assert(to.1[j] == waiter);
            } else {
                assert(told == before.imports.flights[id].waiters);
                let j = choose|j: int| 0 <= j < told.len() && told[j] == waiter;
                assert(to.1[from.1.len() + j] == waiter);
            }
        }
    } else {
        assert(lost.take(0) =~= Seq::empty());
    }
}

/// Bytes from another node are taken for a block if they are as many as were announced, have the
/// checksum that was announced with them, if any was, the read may still use the block, and there is
/// room for them. The node then holds exactly these bytes under that name. The metadata service hears
/// of it unless the block is being retired. Nothing else changes.
pub proof fn only_the_bytes_that_were_announced_are_taken(
    node: NodeView,
    read_scope_id: u64,
    block_id: Seq<u8>,
    bytes: Seq<u8>,
    checksum: Seq<u8>,
    length: u64,
)
    ensures
        ({
            let result = node.received(read_scope_id, block_id, bytes, checksum, length);
            &&& result is Ok <==> length == bytes.len() && (checksum.len() == 0 || checksum
                == sha256_of(bytes)) && !node.retirements.blocks_new_reads(block_id, read_scope_id)
                && node.arena.stored(block_id, bytes, sha256_of(bytes)) is Ok
            &&& result matches Ok((next, report)) ==> {
                &&& next.arena.blocks.contains_key(block_id)
                &&& next.arena.blocks[block_id].length == bytes.len()
                &&& next.arena.blocks[block_id].digest == sha256_of(bytes)
                &&& !node.arena.blocks.contains_key(block_id) ==> next.arena.block_bytes(block_id)
                    == bytes
                &&& report <==> !node.retirements.retiring.contains(block_id)
                &&& next.imports == node.imports
                &&& next.retirements == node.retirements
                &&& next.sessions == node.sessions
                &&& next.cache == node.cache
                &&& next.scopes == node.scopes
            }
        }),
{
}

/// A block that came for an import is taken only while that attempt is under way, and otherwise refused as a
/// conflict without a trace. A block that was taken ends its import, and whoever waits for it is told;
/// one that was refused leaves everything as it was, the import as well.
pub proof fn a_block_is_taken_for_the_attempt_that_asked_for_it(
    before: NodeView,
    after: NodeView,
    block_id: Seq<u8>,
    bytes: Seq<u8>,
    checksum: Seq<u8>,
    length: u64,
    read_scope_id: u64,
    import_attempt: Option<u64>,
    imported: Result<bool, WorkerError>,
    told: Seq<u64>,
    waiters: Seq<u64>,
)
    requires
        before.wf(),
        install_result(
            before,
            after,
            block_id,
            bytes,
            checksum,
            length,
            read_scope_id,
            import_attempt,
            imported,
            told,
            waiters,
        ),
    ensures
        ({
            let flight = before.imports.flights[block_id];
            let current = import_attempt is Some ==> before.imports.flights.contains_key(block_id)
                && flight.attempt == import_attempt->0 && flight.read_scope_id == read_scope_id;
            &&& imported is Ok <==> current && length == bytes.len() && (checksum.len() == 0
                || checksum == sha256_of(bytes)) && !before.retirements.blocks_new_reads(
                block_id,
                read_scope_id,
            ) && before.arena.stored(block_id, bytes, sha256_of(bytes)) is Ok
            &&& imported is Err ==> after == before && told.len() == 0 && waiters.len() == 0
            &&& !current ==> imported is Err && imported->Err_0 is Conflict
            &&& imported is Ok && import_attempt is None ==> told.len() == 0 && after.imports
                == before.imports && after.arena.blocks.contains_key(block_id)
            &&& imported is Ok && import_attempt is Some ==> told == flight.waiters
                && !after.imports.flights.contains_key(block_id)
            &&& imported is Ok ==> (imported->Ok_0 <==> !before.retirements.retiring.contains(
                block_id,
            ))
        }),
{
}

/// Another node that names itself and a block is served the whole block, or the range of it that it
/// asked for, with the checksum of what it is served and the whole block's length. It is refused if
/// and only if the block is not here or does not reach to the range's end.
pub proof fn a_block_is_served_as_it_was_asked_for(
    node: NodeView,
    source_node_id: Seq<char>,
    block_id: Seq<u8>,
    range: Option<(u64, u64)>,
)
    requires
        node.arena.wf(),
    ensures
        ({
            let result = node.served(source_node_id, block_id, range);
            let bytes = node.arena.block_bytes(block_id);
            let (from, count): (int, int) = match range {
                Some((offset, length)) => (offset as int, length as int),
                None => (0, bytes.len() as int),
            };
            &&& result is Ok <==> source_node_id.len() > 0 && block_id.len() > 0
                && node.arena.blocks.contains_key(block_id) && from + count <= bytes.len()
            &&& result matches Ok(block) ==> {
                &&& block.serving_node_id == node.node_id
                &&& block.block_id == block_id
                &&& block.length == bytes.len()
                &&& block.payload == bytes.subrange(from, from + count)
                &&& block.checksum == sha256_of(block.payload)
            }
        }),
{
    if node.arena.blocks.contains_key(block_id) {
        assert(node.arena.block_wf(block_id));
    }
}

/// When an import ends, everybody who waited for it is told, once each and in the order in which
/// they came, and its block is no longer on its way.
pub proof fn whoever_waits_for_an_import_is_told_of_its_end(
    before: NodeView,
    block_id: Seq<u8>,
    attempt: u64,
    failure: Option<PeerImportFailure>,
    next: NodeView,
    told: Seq<u64>,
    waiters: Seq<u64>,
)
    requires
        before.imports.flights.contains_key(block_id),
        before.imports.flights[block_id].attempt == attempt,
        before.import_ended(block_id, attempt, failure, next, told, waiters),
    ensures
        told == before.imports.flights[block_id].waiters,
        !next.imports.flights.contains_key(block_id),
        next.sessions == before.sessions,
        next.cache == before.cache,
        next.scopes == before.scopes,
        next.downloads == before.downloads,
        forall|other: Seq<u8>|
            other != block_id ==> #[trigger] next.imports.flights.contains_key(other)
                == before.imports.flights.contains_key(other),
{
}

/// Once a retirement of a block was asked for, the retirement stands, and no read that begins later may
/// use the block, whatever other retirements end meanwhile, as long as none of them takes the block
/// with it.
pub proof fn a_block_that_is_retired_is_closed_to_later_reads(
    node: NodeView,
    id: Seq<u8>,
    block_ids: Seq<Seq<u8>>,
    waiter: u64,
    next: NodeView,
    reply: RetirementReply,
    waiters: Seq<u64>,
    block_id: Seq<u8>,
    scope: u64,
)
    requires
        node.wf(),
        node.prepare_requested(id, block_ids, waiter, next, reply, waiters),
        id.len() > 0,
        !node.retirements.completed.contains(id),
        !node.retirements.pending.contains_key(id),
        block_ids.contains(block_id),
        scope >= node.next_read_scope,
        forall|other: Seq<u8>| #[trigger]
            node.retirements.pending.contains_key(other)
                ==> !node.retirements.pending[other].names(block_id),
    ensures
        next.retirements.pending.contains_key(id),
        next.retirements.retiring.contains(block_id),
        next.retirements.blocks_new_reads(block_id, scope),
{
    let cutoff = node.last_scope();
    assert(block_ids.len() > 0);
    let retirements = node.retirements.prepare_asked(id, block_ids, waiter, cutoff).0;
    let asked = NodeView {
        cache: node.cache.invalidated_blocks(block_ids),
        retirements,
        ..node
    };
    assert(asked.advanced(next, waiters));
    let (prepared, ended) = choose|prepared: Seq<Seq<u8>>, ended: Seq<Seq<u8>>|
        #![trigger lists(prepared, asked.now_prepared()), lists(ended, asked.now_ended())]
        lists(prepared, asked.now_prepared()) && lists(ended, asked.now_ended()) && next
            == asked.with_retirements(ended) && waiters == prepare_waiters_of(
            asked.retirements.pending,
            prepared,
        ) + final_waiters_of(asked.pending_after(), ended);
    if blocks_of(asked.pending_after(), ended).contains(block_id) {
        let (i, j) = lemma_blocks_of(asked.pending_after(), ended, block_id);
        let other = ended[i];
        assert(asked.now_ended().contains(other));
        assert(asked.pending_after().contains_key(other));
        assert(asked.retirements.pending.contains_key(other));
        assert(asked.retirements.pending[other].block_ids[j] == block_id);
        if other != id {
            assert(node.retirements.pending.contains_key(other));
            assert(node.retirements.pending[other].names(block_id));
        }
    }
    if ended.contains(id) {
        assert(asked.now_ended().contains(id));
    }
    assert forall|other: Seq<u8>| #[trigger] next.retirements.pending.contains_key(
        other,
    ) implies next.retirements.pending[other].cutoff_scope < scope by {
        if other != id {
            assert(node.retirements.pending.contains_key(other));
        }
    }
}

/// A request to prepare a retirement makes the node forget every version that uses one of its
/// blocks, so that no later read finds the blocks through the cache.
pub proof fn a_retired_block_is_not_found_through_the_cache(
    node: NodeView,
    id: Seq<u8>,
    block_ids: Seq<Seq<u8>>,
    waiter: u64,
    next: NodeView,
    reply: RetirementReply,
    waiters: Seq<u64>,
    key: Seq<u8>,
    at: int,
)
    requires
        node.prepare_requested(id, block_ids, waiter, next, reply, waiters),
        id.len() > 0,
        block_ids.len() > 0,
        !node.retirements.completed.contains(id),
        next.cache.entries.contains_key(key),
        0 <= at < next.cache.entries[key].layout.extents.len(),
    ensures
        !block_ids.contains(next.cache.entries[key].layout.extents[at].block_id),
        node.cache.entries.contains_key(key),
        node.cache.entries[key] == next.cache.entries[key],
{
    let extents = next.cache.entries[key].layout.extents;
    assert(next.cache == node.cache.invalidated_blocks(block_ids));
    assert(!crate::current_cache::uses_any(node.cache.entries[key].layout.extents, block_ids));
    if block_ids.contains(extents[at].block_id) {
        let j = choose|j: int| 0 <= j < block_ids.len() && block_ids[j] == extents[at].block_id;
        assert(crate::current_cache::uses_block(extents, block_ids[j]));
    }
}

/// What a probe from another node is answered.
pub open spec fn probe_answered(
    node: NodeView,
    source_node_id: Seq<char>,
    nonce: Seq<u8>,
    answer: Result<PeerProbeResult, WorkerError>,
) -> bool {
    match answer {
        Ok(answer) => source_node_id.len() > 0 && nonce.len() > 0
            && answer.serving_node_id@ == node.node_id && answer.nonce@ == nonce,
        Err(error) => if source_node_id.len() == 0 {
            error == WorkerError::InvalidArgument("source node id is empty")
        } else {
            nonce.len() == 0 && error == WorkerError::InvalidArgument(
                "probe nonce is empty",
            )
        },
    }
}

/// A probe that names its source and carries a nonce gets the nonce back, with the name of the node that
/// answers. Any other is refused.
pub proof fn a_probe_gets_its_nonce_back(
    node: NodeView,
    source_node_id: Seq<char>,
    nonce: Seq<u8>,
    answer: Result<PeerProbeResult, WorkerError>,
)
    requires
        probe_answered(node, source_node_id, nonce, answer),
    ensures
        answer is Ok <==> source_node_id.len() > 0 && nonce.len() > 0,
        answer matches Ok(told) ==> told.nonce@ == nonce && told.serving_node_id@ == node.node_id,
        answer matches Err(error) ==> error is InvalidArgument,
{
}

impl NodeState {
    fn last_scope_id(&self) -> (scope: u64)
        ensures
            scope == self@.last_scope(),
    {
        if self.next_read_scope == 0 {
            0
        } else {
            self.next_read_scope - 1
        }
    }

    /// Asks for a block to be imported for a read.
    pub fn begin_peer_import(
        &mut self,
        read_scope_id: u64,
        spec: &PeerPullSpec,
        waiter: u64,
        closed: &KeySet<u64>,
    ) -> (start: ImportStart)
        requires
            old(self)@.wf(),
        ensures
            final(self)@.wf(),
            (final(self)@, start) == old(self)@.import_asked(read_scope_id, spec@, waiter, closed@),
    {
        let admitted: bool = self.active_read_scopes.contains(&read_scope_id)
            && !self.retirements.retirement_blocks_new_reads(&spec.block_id, read_scope_id);
        self.imports.begin(
            read_scope_id,
            spec,
            waiter,
            closed,
            admitted,
            self.arena.block_length_and_digest(&spec.block_id),
        )
    }

    /// Asks for some blocks to be imported for a read. Returns what comes of each request, and
    /// the imports that have to be carried out.
    pub fn ensure_peer_blocks(
        &mut self,
        read_scope_id: u64,
        requests: Vec<(PeerPullSpec, u64)>,
        closed: &KeySet<u64>,
    ) -> (asked: (Vec<ImportStart>, Vec<PeerImportWork>))
        requires
            old(self)@.wf(),
        ensures
            final(self)@.wf(),
            (final(self)@, asked.0@) == old(self)@.imports_asked(
                read_scope_id,
                requests@.map_values(|request: (PeerPullSpec, u64)| (request.0@, request.1)),
                closed@,
            ),
            views(asked.1@) == work_of(
                requests@.map_values(|request: (PeerPullSpec, u64)| (request.0@, request.1)),
                asked.0@,
            ),
    {
        let ghost before = self@;
        let ghost all = requests@.map_values(
            |request: (PeerPullSpec, u64)| (request.0@, request.1),
        );
        let mut starts: Vec<ImportStart> = Vec::with_capacity(requests.len());
        let mut work: Vec<PeerImportWork> = Vec::new();
        let mut i: usize = 0;
        assert(all.take(0) =~= Seq::empty());
        assert(starts@ =~= Seq::empty());
        assert(views(work@) =~= Seq::empty());
        while i < requests.len()
            invariant
                i <= requests@.len(),
                self@.wf(),
                before == old(self)@,
                all == requests@.map_values(
                    |request: (PeerPullSpec, u64)| (request.0@, request.1),
                ),
                starts@.len() == i,
                (self@, starts@) == before.imports_asked(
                    read_scope_id,
                    all.take(i as int),
                    closed@,
                ),
                views(work@) == work_of(all.take(i as int), starts@),
            decreases requests.len() - i,
        {
            let ghost so_far = starts@;
            let ghost work_before = work@;
            proof {
                assert(all.take(i + 1).drop_last() =~= all.take(i as int));
                assert(all.take(i + 1).last() == all[i as int]);
            }
            let spec = &requests[i].0;
            let start = self.begin_peer_import(read_scope_id, spec, requests[i].1, closed);
            if let ImportStart::Started(attempt) = &start {
                work.push(PeerImportWork { spec: spec.duplicate(), attempt: *attempt });
                proof {
                    lemma_views_push(work_before, work@.last());
                }
            }
            starts.push(start);
            assert(starts@.drop_last() =~= so_far);
            i = i + 1;
        }
        assert(all.take(i as int) =~= all);
        (starts, work)
    }

    /// Notes which task carries some imports out.
    pub fn note_import_task(&mut self, block_ids: &Vec<Vec<u8>>, task_id: u64)
        requires
            old(self)@.wf(),
        ensures
            final(self)@.wf(),
            final(self)@ == (NodeView {
                imports: taken_on(old(self)@.imports, views(block_ids@), task_id),
                ..old(self)@
            }),
    {
        let ghost before = self@;
        let ghost ids = views(block_ids@);
        let mut i: usize = 0;
        assert(ids.take(0) =~= Seq::empty());
        while i < block_ids.len()
            invariant
                i <= block_ids@.len(),
                ids == views(block_ids@),
                self@.wf(),
                self@ == (NodeView {
                    imports: taken_on(before.imports, ids.take(i as int), task_id),
                    ..before
                }),
            decreases block_ids.len() - i,
        {
            proof {
                lemma_views_take(block_ids@, i as int);
            }
            if self.imports.flights.contains(&block_ids[i]) {
                self.imports.assign_task(&block_ids[i], task_id);
            }
            i = i + 1;
        }
        assert(ids.take(i as int) =~= ids);
    }

    /// Ends an import. Returns those who waited for it, who are all told what came of it, and
    /// those whose retirement went on. An attempt that is not under way ends nothing.
    pub fn complete_peer_import(
        &mut self,
        block_id: &Vec<u8>,
        attempt: u64,
        failure: Option<&PeerImportFailure>,
    ) -> (ended: (Vec<u64>, Vec<u64>))
        requires
            old(self)@.wf(),
        ensures
            final(self)@.wf(),
            old(self)@.import_ended(
                block_id@,
                attempt,
                (match failure {
                    Some(failure) => Some(*failure),
                    None => None,
                }),
                final(self)@,
                ended.0@,
                ended.1@,
            ),
    {
        let cutoff: u64 = self.last_scope_id();
        match self.imports.end(block_id, attempt, failure, cutoff) {
            None => (Vec::new(), Vec::new()),
            Some(told) => {
                let waiters: Vec<u64> = self.advance_retirements();
                (told, waiters)
            },
        }
    }

    /// Ends the imports of a task that was lost. Returns those who waited for them, who are all
    /// told of it, and those whose retirement went on.
    pub fn fail_peer_import_task(&mut self, task_id: u64) -> (ended: (Vec<u64>, Vec<u64>))
        requires
            old(self)@.wf(),
        ensures
            final(self)@.wf(),
            exists|lost: Seq<Seq<u8>>, trace: Seq<(NodeView, Seq<u64>, Seq<u64>)>|
                #![trigger old(self)@.imports_lost(lost, trace)]
                lists(lost, old(self)@.carried_by(task_id)) && old(self)@.imports_lost(lost, trace)
                    && trace.last() == (final(self)@, ended.0@, ended.1@),
    {
        let ghost before = self@;
        let carried = |id: &Vec<u8>, flight: &PeerImportFlight| -> (met: bool)
            ensures
                met == (flight@.task_id == Some(task_id)),
        {
            match flight.task_id {
                Some(carrier) => carrier == task_id,
                None => false,
            }
        };
        let lost: Vec<Vec<u8>> = self.imports.flights.keys_where(
            carried,
            Ghost(|id: Seq<u8>, flight: FlightView| flight.task_id == Some(task_id)),
        );
        let ghost names = views(lost@);
        proof {
            let test = |id: Seq<u8>, flight: FlightView| flight.task_id == Some(task_id);
            assert(before.carried_by(task_id) =~= Set::new(
                |id: Seq<u8>|
                    before.imports.flights.contains_key(id) && test(
                        id,
                        before.imports.flights[id],
                    ),
            ));
            lemma_keys_list(lost@, before.carried_by(task_id));
        }
        let attempts: Vec<u64> = self.attempts_of(&lost);
        let failure = PeerImportFailure::terminal(WorkerError::TransferUnavailable);
        let mut told: Vec<u64> = Vec::new();
        let mut waiters: Vec<u64> = Vec::new();
        let mut i: usize = 0;
        let ghost mut trace: Seq<(NodeView, Seq<u64>, Seq<u64>)> = seq![
            (before, Seq::<u64>::empty(), Seq::<u64>::empty()),
        ];
        assert(told@ =~= Seq::empty());
        assert(waiters@ =~= Seq::empty());
        while i < lost.len()
            invariant
                i <= lost@.len(),
                names == views(lost@),
                attempts@.len() == lost@.len(),
                forall|j: int|
                    #![trigger attempts@[j]]
                    0 <= j < lost@.len() ==> attempts@[j]
                        == before.imports.flights[names[j]].attempt,
                Some(failure) == lost_failure(),
                self@.wf(),
                trace.len() == i + 1,
                trace[0] == (before, Seq::<u64>::empty(), Seq::<u64>::empty()),
                trace[i as int] == (self@, told@, waiters@),
                forall|j: int|
                    #![trigger names[j]]
                    0 <= j < i ==> ended_step(
                        names[j],
                        before.imports.flights[names[j]].attempt,
                        lost_failure(),
                        trace[j],
                        trace[j + 1],
                    ),
            decreases lost.len() - i,
        {
            let (told_now, waiters_now) = self.complete_peer_import(
                &lost[i],
                attempts[i],
                Some(&failure),
            );
            append_numbers(&mut told, &told_now);
            append_numbers(&mut waiters, &waiters_now);
            proof {
                let from = trace[i as int];
                let to = (self@, told@, waiters@);
                assert(from.0.import_ended(
                    names[i as int],
                    attempts@[i as int],
                    lost_failure(),
                    to.0,
                    told_now@,
                    waiters_now@,
                ));
                assert(ended_step(
                    names[i as int],
                    attempts@[i as int],
                    lost_failure(),
                    from,
                    to,
                ));
                let longer = trace.push(to);
                assert forall|j: int| #![trigger names[j]] 0 <= j < i + 1 implies ended_step(
                    names[j],
                    before.imports.flights[names[j]].attempt,
                    lost_failure(),
                    longer[j],
                    longer[j + 1],
                ) by {
                    if j < i {
                        assert(longer[j] == trace[j] && longer[j + 1] == trace[j + 1]);
                    }
                }
                trace = longer;
            }
            i = i + 1;
        }
        assert(before.imports_lost(names, trace));
        (told, waiters)
    }

    /// Takes what came of some imports. Returns those who waited for each, and those whose
    /// retirement went on.
    pub fn complete_peer_imports(&mut self, completed: &Vec<PeerImportCompletion>) -> (ended: (
        Vec<Vec<u64>>,
        Vec<u64>,
    ))
        requires
            old(self)@.wf(),
        ensures
            final(self)@.wf(),
            exists|trace: Seq<(NodeView, Seq<u64>)>| #[trigger]
                old(self)@.imports_finished(views(completed@), views(ended.0@), trace)
                    && trace.last() == (final(self)@, ended.1@),
    {
        let ghost before = self@;
        let ghost results = views(completed@);
        let mut told: Vec<Vec<u64>> = Vec::new();
        let mut waiters: Vec<u64> = Vec::new();
        let mut i: usize = 0;
        let ghost mut trace: Seq<(NodeView, Seq<u64>)> = seq![(before, Seq::<u64>::empty())];
        assert(waiters@ =~= Seq::empty());
        while i < completed.len()
            invariant
                i <= completed@.len(),
                results == views(completed@),
                self@.wf(),
                told@.len() == i,
                trace.len() == i + 1,
                trace[0] == (before, Seq::<u64>::empty()),
                trace[i as int] == (self@, waiters@),
                forall|j: int|
                    #![trigger results[j]]
                    0 <= j < i ==> finished_step(
                        results[j],
                        views(told@)[j],
                        trace[j],
                        trace[j + 1],
                    ),
            decreases completed.len() - i,
        {
            let (told_now, waiters_now) = self.complete_peer_import(
                &completed[i].block_id,
                completed[i].attempt,
                completed[i].failure.as_ref(),
            );
            append_numbers(&mut waiters, &waiters_now);
            let ghost earlier = told@;
            told.push(told_now);
            proof {
                let result = results[i as int];
                let from = trace[i as int];
                let to = (self@, waiters@);
                assert(from.0.import_ended(
                    result.block_id,
                    result.attempt,
                    result.failure,
                    to.0,
                    told_now@,
                    waiters_now@,
                ));
                assert(finished_step(result, told_now@, from, to));
                let longer = trace.push(to);
                assert forall|j: int| #![trigger results[j]] 0 <= j < i + 1 implies finished_step(
                    results[j],
                    views(told@)[j],
                    longer[j],
                    longer[j + 1],
                ) by {
                    if j < i {
                        assert(longer[j] == trace[j] && longer[j + 1] == trace[j + 1]);
                        assert(views(told@)[j] == views(earlier)[j]);
                    }
                }
                trace = longer;
            }
            i = i + 1;
        }
        let ended = (told, waiters);
        assert(before.imports_finished(views(completed@), views(ended.0@), trace) && trace.last() == (
            self@,
            ended.1@,
        ));
        ended
    }

    fn attempts_of(&self, block_ids: &Vec<Vec<u8>>) -> (attempts: Vec<u64>)
        requires
            forall|i: int|
                #![trigger views(block_ids@)[i]]
                0 <= i < block_ids@.len() ==> self@.imports.flights.contains_key(
                    views(block_ids@)[i],
                ),
        ensures
            attempts@.len() == block_ids@.len(),
            forall|i: int|
                #![trigger attempts@[i]]
                0 <= i < block_ids@.len() ==> attempts@[i]
                    == self@.imports.flights[views(block_ids@)[i]].attempt,
    {
        let ghost ids = views(block_ids@);
        let mut attempts: Vec<u64> = Vec::with_capacity(block_ids.len());
        let mut i: usize = 0;
        while i < block_ids.len()
            invariant
                i <= block_ids@.len(),
                ids == views(block_ids@),
                attempts@.len() == i,
                forall|j: int|
                    #![trigger ids[j]]
                    0 <= j < ids.len() ==> self@.imports.flights.contains_key(ids[j]),
                forall|j: int|
                    #![trigger attempts@[j]]
                    0 <= j < i ==> attempts@[j] == self@.imports.flights[ids[j]].attempt,
            decreases block_ids.len() - i,
        {
            assert(self@.imports.flights.contains_key(ids[i as int]));
            if let Some(flight) = self.imports.flights.get(&block_ids[i]) {
                attempts.push(flight.attempt);
            }
            i = i + 1;
        }
        attempts
    }

    /// Takes the bytes of a block that came from another node, if they are what was announced,
    /// and says whether the metadata service should hear of it.
    pub fn import_peer_block(
        &mut self,
        read_scope_id: u64,
        block_id: Vec<u8>,
        bytes: &Payload,
        checksum: &Vec<u8>,
        length: u64,
    ) -> (imported: Result<bool, WorkerError>)
        requires
            old(self)@.wf(),
        ensures
            final(self)@.wf(),
            match imported {
                Ok(report) => old(self)@.received(
                    read_scope_id,
                    block_id@,
                    bytes@,
                    checksum@,
                    length,
                ) == Ok::<(NodeView, bool), WorkerError>((final(self)@, report)),
                Err(error) => final(self)@ == old(self)@ && old(self)@.received(
                    read_scope_id,
                    block_id@,
                    bytes@,
                    checksum@,
                    length,
                ) == Err::<(NodeView, bool), WorkerError>(error),
            },
    {
        let slice: &[u8] = bytes.as_slice();
        if length != slice.len() as u64 {
            return Err(WorkerError::Conflict);
        }
        let retiring: bool = self.retirements.retiring.contains(&block_id);
        if retiring && self.retirements.retirement_blocks_new_reads(&block_id, read_scope_id) {
            return Err(WorkerError::Conflict);
        }
        let verified_digest: Vec<u8> = digest(slice);
        if checksum.len() > 0 && !same_bytes(&verified_digest, checksum) {
            return Err(WorkerError::Conflict);
        }
        match self.arena.commit_inline_with_verified_digest(
            block_id,
            bytes.to_vec(),
            verified_digest,
        ) {
            Ok(_) => Ok(!retiring),
            Err(error) => Err(map_arena_error(error)),
        }
    }

    /// Takes the bytes of a block for an import. An import that has ended meanwhile takes nothing,
    /// and one that takes the bytes ends with it. Returns what came of it, those who waited for
    /// the import, who are handed the bytes, and those whose retirement went on.
    pub fn install_peer_block(
        &mut self,
        block_id: Vec<u8>,
        bytes: &Payload,
        checksum: &Vec<u8>,
        length: u64,
        read_scope_id: u64,
        import_attempt: Option<u64>,
    ) -> (installed: (Result<bool, WorkerError>, Vec<u64>, Vec<u64>))
        requires
            old(self)@.wf(),
        ensures
            final(self)@.wf(),
            install_result(
                old(self)@,
                final(self)@,
                block_id@,
                bytes@,
                checksum@,
                length,
                read_scope_id,
                import_attempt,
                installed.0,
                installed.1@,
                installed.2@,
            ),
    {
        if let Some(attempt) = import_attempt {
            match self.imports.validate_peer_import_attempt(&block_id, read_scope_id, attempt) {
                Ok(_) => {},
                Err(error) => return (Err(error), Vec::new(), Vec::new()),
            }
        }
        let name: Vec<u8> = copy_bytes(&block_id);
        let imported = self.import_peer_block(read_scope_id, block_id, bytes, checksum, length);
        let mut told: Vec<u64> = Vec::new();
        let mut waiters: Vec<u64> = Vec::new();
        if imported.is_ok() {
            if let Some(attempt) = import_attempt {
                let (told_now, waiters_now) = self.complete_peer_import(&name, attempt, None);
                told = told_now;
                waiters = waiters_now;
            }
        }
        (imported, told, waiters)
    }

    /// Closes blocks to reads that begin later, and returns the last read that may still use them.
    pub fn prepare_block_retirement(&mut self, block_ids: &Vec<Vec<u8>>) -> (cutoff: u64)
        requires
            old(self)@.wf(),
        ensures
            final(self)@.wf(),
            cutoff == old(self)@.last_scope(),
            final(self)@ == (NodeView {
                cache: old(self)@.cache.invalidated_blocks(views(block_ids@)),
                retirements: RetirementsView {
                    retiring: old(self)@.retirements.retiring.union(views(block_ids@).to_set()),
                    ..old(self)@.retirements
                },
                ..old(self)@
            }),
    {
        self.current_cache.invalidate_blocks(block_ids);
        self.retirements.close_blocks(block_ids);
        self.last_scope_id()
    }

    /// Closes blocks to new reads, and waits until the reads that began before have ended.
    /// Returns what the request is told, and those whose retirement went on.
    pub fn register_prepare_retirement(
        &mut self,
        retirement_id: &Vec<u8>,
        block_ids: &Vec<Vec<u8>>,
        waiter: u64,
    ) -> (answer: (RetirementReply, Vec<u64>))
        requires
            old(self)@.wf(),
        ensures
            final(self)@.wf(),
            old(self)@.prepare_requested(
                retirement_id@,
                views(block_ids@),
                waiter,
                final(self)@,
                answer.0,
                answer.1@,
            ),
    {
        match self.retirements.answer_early(retirement_id, block_ids) {
            Some(reply) => return (reply, Vec::new()),
            None => {},
        }
        self.current_cache.invalidate_blocks(block_ids);
        let cutoff: u64 = self.last_scope_id();
        match self.retirements.ask_to_prepare(retirement_id, block_ids, waiter, cutoff) {
            RetirementReply::Waiting => {
                let waiters: Vec<u64> = self.advance_retirements();
                (RetirementReply::Waiting, waiters)
            },
            reply => (reply, Vec::new()),
        }
    }

    /// Asks for blocks to be released, and waits until nobody uses their memory. Returns what the
    /// request is told, and those whose retirement went on.
    pub fn register_final_retirement(
        &mut self,
        retirement_id: &Vec<u8>,
        block_ids: &Vec<Vec<u8>>,
        waiter: u64,
    ) -> (answer: (RetirementReply, Vec<u64>))
        requires
            old(self)@.wf(),
        ensures
            final(self)@.wf(),
            old(self)@.final_requested(
                retirement_id@,
                views(block_ids@),
                waiter,
                final(self)@,
                answer.0,
                answer.1@,
            ),
    {
        match self.retirements.answer_early(retirement_id, block_ids) {
            Some(reply) => return (reply, Vec::new()),
            None => {},
        }
        let cutoff: u64 = self.last_scope_id();
        match self.retirements.ask_to_finish(retirement_id, block_ids, waiter, cutoff) {
            RetirementReply::Waiting => {
                let waiters: Vec<u64> = self.advance_retirements();
                (RetirementReply::Waiting, waiters)
            },
            reply => (reply, Vec::new()),
        }
    }

    /// Answers a probe of another node.
    pub fn probe(&self, source_node_id: &String, nonce: Vec<u8>) -> (answer: Result<
        PeerProbeResult,
        WorkerError,
    >)
        ensures
            probe_answered(self@, source_node_id@, nonce@, answer),
    {
        if source_node_id.as_str().is_empty() {
            return Err(WorkerError::InvalidArgument("source node id is empty"));
        }
        if nonce.len() == 0 {
            return Err(WorkerError::InvalidArgument("probe nonce is empty"));
        }
        Ok(PeerProbeResult { serving_node_id: self.node_id.clone(), nonce })
    }

    /// Reads a block, or a range of one, for another node.
    pub fn pull_block(
        &self,
        source_node_id: &String,
        block_id: Vec<u8>,
        range: Option<(u64, u64)>,
    ) -> (served: Result<PeerBlockResult, WorkerError>)
        requires
            self@.wf(),
        ensures
            match served {
                Ok(block) => self@.served(source_node_id@, block_id@, range) == Ok::<
                    BlockResultView,
                    WorkerError,
                >(block@),
                Err(error) => self@.served(source_node_id@, block_id@, range) == Err::<
                    BlockResultView,
                    WorkerError,
                >(error),
            },
    {
        if source_node_id.as_str().is_empty() || block_id.len() == 0 {
            return Err(
                WorkerError::InvalidArgument("source node id and block id are required"),
            );
        }
        let (ticket, full_length) = match self.arena.open_read(&block_id, range) {
            Ok(opened) => opened,
            Err(error) => return Err(map_arena_error(error)),
        };
        proof {
            assert(self@.arena.block_wf(block_id@));
            assert(self@.arena.block_bytes(block_id@).subrange(
                0,
                self@.arena.block_bytes(block_id@).len() as int,
            ) =~= self@.arena.block_bytes(block_id@));
        }
        let payload: Vec<u8> = match self.arena.read_ticket(ticket) {
            Ok(payload) => payload,
            Err(error) => return Err(map_arena_error(error)),
        };
        let known: Option<Vec<u8>> = match (range, self.arena.block_length_and_digest(&block_id)) {
            (None, Some((_, known))) => Some(copy_bytes(known)),
            _ => None,
        };
        let checksum: Vec<u8> = match known {
            Some(checksum) => checksum,
            None => digest(&payload),
        };
        Ok(
            PeerBlockResult {
                serving_node_id: self.node_id.clone(),
                block_id,
                checksum,
                length: full_length,
                payload: Payload::new(payload),
            },
        )
    }
}

/// What taking the bytes of a block for an import does, and what comes of it.
pub open spec fn install_result(
    before: NodeView,
    after: NodeView,
    block_id: Seq<u8>,
    bytes: Seq<u8>,
    checksum: Seq<u8>,
    length: u64,
    read_scope_id: u64,
    import_attempt: Option<u64>,
    imported: Result<bool, WorkerError>,
    told: Seq<u64>,
    waiters: Seq<u64>,
) -> bool {
    if import_attempt is Some && !before.imports.current(
        block_id,
        read_scope_id,
        import_attempt->0,
    ) {
        after == before && told.len() == 0 && waiters.len() == 0 && (imported matches Err(error)
            && error is Conflict)
    } else {
        match before.received(read_scope_id, block_id, bytes, checksum, length) {
            Err(fault) => after == before && told.len() == 0 && waiters.len() == 0 && imported
                == Err::<bool, WorkerError>(fault),
            Ok((taken, report)) => {
                &&& imported == Ok::<bool, WorkerError>(report)
                &&& match import_attempt {
                    Some(attempt) => taken.import_ended(
                        block_id,
                        attempt,
                        None,
                        after,
                        told,
                        waiters,
                    ),
                    None => after == taken && told.len() == 0 && waiters.len() == 0,
                }
            },
        }
    }
}

/// A block that came from another node reads, for a third node, as the bytes that came.
pub proof fn an_imported_block_is_served_as_it_came(
    before: NodeView,
    read_scope_id: u64,
    block_id: Seq<u8>,
    bytes: Seq<u8>,
    checksum: Seq<u8>,
    length: u64,
    peer: Seq<char>,
)
    requires
        before.wf(),
        !before.arena.blocks.contains_key(block_id),
        before.received(read_scope_id, block_id, bytes, checksum, length) is Ok,
        block_id.len() > 0,
        peer.len() > 0,
    ensures
        ({
            let (next, _) = before.received(
                read_scope_id,
                block_id,
                bytes,
                checksum,
                length,
            )->Ok_0;
            next.served(peer, block_id, None) == Ok::<BlockResultView, WorkerError>(
                BlockResultView {
                    serving_node_id: before.node_id,
                    block_id,
                    checksum: sha256_of(bytes),
                    length,
                    payload: bytes,
                },
            )
        }),
{
    assert(bytes.subrange(0, bytes.len() as int) =~= bytes);
}

} // verus!
