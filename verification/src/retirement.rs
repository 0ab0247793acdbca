//! Blocks that are being retired. A retirement first waits for the reads that began before it,
//! and then, once it is final, for everybody who may still read or write the blocks' memory.
use crate::bytes::{copy_bytes, same_bytes};
#[allow(unused_imports)]
use crate::bytes::{lemma_views_push, lemma_views_take, views};
use crate::error::WorkerError;
use crate::table::{KeySet, Table};
use vstd::prelude::*;

verus! {

/// The most retirements that are remembered after they ended.
pub const COMPLETED_RETIREMENT_CACHE_LIMIT: usize = 1024;

/// The most requests that wait for one phase of a retirement.
pub const RETIREMENT_PHASE_WAITER_LIMIT: usize = 16;

/// A retirement that is under way.
#[derive(Debug, PartialEq, Eq)]
pub struct PendingRetirement {
    pub block_ids: Vec<Vec<u8>>,
    /// The last of the reads that began before the retirement.
    pub cutoff_scope: u64,
    /// Whether those reads have ended.
    pub prepared: bool,
    /// Whether the blocks are to be released.
    pub final_requested: bool,
    pub prepare_waiters: Vec<u64>,
    pub final_waiters: Vec<u64>,
}

/// A retirement that is under way, as a value.
#[verifier::ext_equal]
pub struct RetirementView {
    pub block_ids: Seq<Seq<u8>>,
    pub cutoff_scope: u64,
    pub prepared: bool,
    pub final_requested: bool,
    pub prepare_waiters: Seq<u64>,
    pub final_waiters: Seq<u64>,
}

impl View for PendingRetirement {
    type V = RetirementView;

    open spec fn view(&self) -> RetirementView {
        RetirementView {
            block_ids: views(self.block_ids@),
            cutoff_scope: self.cutoff_scope,
            prepared: self.prepared,
            final_requested: self.final_requested,
            prepare_waiters: self.prepare_waiters@,
            final_waiters: self.final_waiters@,
        }
    }
}

/// The retirements.
pub struct Retirements {
    pub pending: Table<Vec<u8>, PendingRetirement>,
    pub completed: Vec<Vec<u8>>,
    pub retiring: KeySet<Vec<u8>>,
}

/// The retirements, as a value.
#[verifier::ext_equal]
pub struct RetirementsView {
    pub pending: Map<Seq<u8>, RetirementView>,
    pub completed: Seq<Seq<u8>>,
    pub retiring: Set<Seq<u8>>,
}

impl View for Retirements {
    type V = RetirementsView;

    open spec fn view(&self) -> RetirementsView {
        RetirementsView {
            pending: self.pending@,
            completed: views(self.completed@),
            retiring: self.retiring@,
        }
    }
}

/// What a request for a phase of a retirement is told.
#[derive(Debug, PartialEq, Eq)]
pub enum RetirementReply {
    /// The phase is over.
    Done,
    /// The request failed.
    Failed(WorkerError),
    /// The request waits.
    Waiting,
}

impl RetirementView {
    /// Whether the retirement is for a block.
    pub open spec fn names(self, block_id: Seq<u8>) -> bool {
        exists|i: int|
            #![trigger self.block_ids[i]]
            0 <= i < self.block_ids.len() && self.block_ids[i] == block_id
    }
}

/// What is remembered of ended retirements after one more has ended.
pub open spec fn remembered(completed: Seq<Seq<u8>>, id: Seq<u8>) -> Seq<Seq<u8>> {
    if completed.contains(id) {
        completed
    } else {
        let longer = completed.push(id);
        if longer.len() > COMPLETED_RETIREMENT_CACHE_LIMIT {
            longer.skip(longer.len() - COMPLETED_RETIREMENT_CACHE_LIMIT)
        } else {
            longer
        }
    }
}

/// What is remembered of ended retirements after some more have ended.
pub open spec fn remembered_all(completed: Seq<Seq<u8>>, ids: Seq<Seq<u8>>) -> Seq<Seq<u8>>
    decreases ids.len(),
{
    if ids.len() == 0 {
        completed
    } else {
        remembered(remembered_all(completed, ids.drop_last()), ids.last())
    }
}

impl RetirementsView {
    /// What is true of the retirements at any time: not too many ended ones are remembered, and none
    /// that is under way is among them.
    pub open spec fn wf(self) -> bool {
        &&& self.completed.len() <= COMPLETED_RETIREMENT_CACHE_LIMIT
        &&& forall|id: Seq<u8>| #[trigger]
            self.pending.contains_key(id) ==> !self.completed.contains(id)
    }

    /// Whether a read that began in a scope may not use a block any more: the block is being
    /// retired and the read did not begin before that.
    pub open spec fn blocks_new_reads(self, block_id: Seq<u8>, read_scope_id: u64) -> bool {
        self.retiring.contains(block_id) && !exists|id: Seq<u8>| #[trigger]
            self.pending.contains_key(id) && self.pending[id].names(block_id) && read_scope_id
                <= self.pending[id].cutoff_scope
    }

    /// The answer that a request gets without a look at the retirement.
    pub open spec fn early_reply(self, id: Seq<u8>, block_ids: Seq<Seq<u8>>) -> Option<
        RetirementReply,
    > {
        if id.len() == 0 || block_ids.len() == 0 {
            Some(
                RetirementReply::Failed(
                    WorkerError::InvalidArgument("retirement id and blocks are required"),
                ),
            )
        } else if self.completed.contains(id) {
            Some(RetirementReply::Done)
        } else {
            None
        }
    }

    /// The retirement of that name, or a new one.
    pub open spec fn entry(self, id: Seq<u8>, block_ids: Seq<Seq<u8>>, cutoff: u64) -> RetirementView {
        if self.pending.contains_key(id) {
            self.pending[id]
        } else {
            RetirementView {
                block_ids,
                cutoff_scope: cutoff,
                prepared: false,
                final_requested: false,
                prepare_waiters: Seq::empty(),
                final_waiters: Seq::empty(),
            }
        }
    }

    /// The retirements after one was asked to be prepared, and what the request is told. The
    /// blocks are closed to new reads whatever it is told.
    pub open spec fn prepare_asked(
        self,
        id: Seq<u8>,
        block_ids: Seq<Seq<u8>>,
        waiter: u64,
        cutoff: u64,
    ) -> (RetirementsView, RetirementReply) {
        let entry = self.entry(id, block_ids, cutoff);
        let closed = RetirementsView {
            retiring: self.retiring.union(block_ids.to_set()),
            pending: self.pending.insert(id, entry),
            ..self
        };
        if entry.block_ids != block_ids {
            (closed, RetirementReply::Failed(WorkerError::Conflict))
        } else if entry.prepared {
            (closed, RetirementReply::Done)
        } else if entry.prepare_waiters.len() >= RETIREMENT_PHASE_WAITER_LIMIT {
            (closed, RetirementReply::Failed(WorkerError::ResourceExhausted))
        } else {
            (
                RetirementsView {
                    pending: self.pending.insert(
                        id,
                        RetirementView {
                            prepare_waiters: entry.prepare_waiters.push(waiter),
                            ..entry
                        },
                    ),
                    ..closed
                },
                RetirementReply::Waiting,
            )
        }
    }

    /// The retirements after one was asked to be final, and what the request is told.
    pub open spec fn final_asked(
        self,
        id: Seq<u8>,
        block_ids: Seq<Seq<u8>>,
        waiter: u64,
        cutoff: u64,
    ) -> (RetirementsView, RetirementReply) {
        let entry = self.entry(id, block_ids, cutoff);
        let known = RetirementsView { pending: self.pending.insert(id, entry), ..self };
        if entry.block_ids != block_ids {
            (known, RetirementReply::Failed(WorkerError::Conflict))
        } else if entry.final_waiters.len() >= RETIREMENT_PHASE_WAITER_LIMIT {
            (known, RetirementReply::Failed(WorkerError::ResourceExhausted))
        } else {
            (
                RetirementsView {
                    pending: self.pending.insert(
                        id,
                        RetirementView {
                            final_requested: true,
                            final_waiters: entry.final_waiters.push(waiter),
                            ..entry
                        },
                    ),
                    ..self
                },
                RetirementReply::Waiting,
            )
        }
    }
}

/// A request to prepare a retirement closes its blocks to every read that begins later, and leaves
/// them to the reads that had begun. A new retirement stands for the blocks that it was asked for,
/// and its request waits; a request for one that is under way joins it if it names the same blocks,
/// is told at once where the phase is over, and fails otherwise. No other retirement is touched.
pub proof fn a_retirement_closes_its_blocks_to_later_reads(
    state: RetirementsView,
    id: Seq<u8>,
    block_ids: Seq<Seq<u8>>,
    waiter: u64,
    cutoff: u64,
    block_id: Seq<u8>,
    scope: u64,
    other: Seq<u8>,
)
    ensures
        ({
            let (next, reply) = state.prepare_asked(id, block_ids, waiter, cutoff);
            let known = state.pending.contains_key(id);
            let before = state.pending[id];
            let now = next.pending[id];
            &&& next.pending.contains_key(id)
            &&& next.retiring.contains(block_id) <==> state.retiring.contains(block_id)
                || block_ids.contains(block_id)
            &&& !known ==> {
                &&& reply is Waiting
                &&& now.block_ids == block_ids
                &&& now.cutoff_scope == cutoff
                &&& !now.prepared
                &&& !now.final_requested
                &&& now.prepare_waiters == seq![waiter]
                &&& now.final_waiters.len() == 0
                &&& block_ids.contains(block_id) && scope <= cutoff ==> !next.blocks_new_reads(
                    block_id,
                    scope,
                )
            }
            &&& block_ids.contains(block_id) && scope > cutoff && (forall|pending: Seq<u8>|
                #[trigger] state.pending.contains_key(pending) ==> state.pending[pending].cutoff_scope
                    <= cutoff) ==> next.blocks_new_reads(block_id, scope)
            &&& known && before.block_ids != block_ids ==> now == before && reply
                == RetirementReply::Failed(WorkerError::Conflict)
            &&& known && before.block_ids == block_ids && before.prepared ==> now == before
                && reply == RetirementReply::Done
            &&& known && before.block_ids == block_ids && !before.prepared
                && before.prepare_waiters.len() < 16 ==> reply is Waiting
                && now == (RetirementView {
                prepare_waiters: before.prepare_waiters.push(waiter),
                ..before
            })
            &&& known && before.block_ids == block_ids && !before.prepared
                && before.prepare_waiters.len() >= 16 ==> now == before
                && reply == RetirementReply::Failed(WorkerError::ResourceExhausted)
            &&& other != id ==> next.pending.contains_key(other) == state.pending.contains_key(
                other,
            ) && next.pending[other] == state.pending[other]
            &&& next.completed == state.completed
        }),
{
    let (next, reply) = state.prepare_asked(id, block_ids, waiter, cutoff);
    assert(block_ids.to_set().contains(block_id) <==> block_ids.contains(block_id));
    if !state.pending.contains_key(id) {
        assert(next.pending[id].prepare_waiters =~= seq![waiter]);
        if block_ids.contains(block_id) && scope <= cutoff {
            let i = choose|i: int| 0 <= i < block_ids.len() && block_ids[i] == block_id;
            assert(next.pending[id].block_ids[i] == block_id);
            assert(next.pending[id].names(block_id));
            assert(next.pending.contains_key(id));
        }
    }
}

/// A request to end a retirement marks it for its end and waits, if it names the retirement's
/// blocks; with other blocks it fails and marks nothing. One that was never prepared stands for the
/// blocks that were named. No other retirement is touched, and no block is opened or closed.
pub proof fn a_request_to_end_a_retirement_marks_it(
    state: RetirementsView,
    id: Seq<u8>,
    block_ids: Seq<Seq<u8>>,
    waiter: u64,
    cutoff: u64,
    other: Seq<u8>,
)
    ensures
        ({
            let (next, reply) = state.final_asked(id, block_ids, waiter, cutoff);
            let known = state.pending.contains_key(id);
            let before = state.pending[id];
            let now = next.pending[id];
            &&& next.pending.contains_key(id)
            &&& next.retiring == state.retiring
            &&& next.completed == state.completed
            &&& !known ==> {
                &&& reply is Waiting
                &&& now.block_ids == block_ids
                &&& now.cutoff_scope == cutoff
                &&& !now.prepared
                &&& now.final_requested
                &&& now.prepare_waiters.len() == 0
                &&& now.final_waiters == seq![waiter]
            }
            &&& known && before.block_ids != block_ids ==> now == before && reply
                == RetirementReply::Failed(WorkerError::Conflict)
            &&& known && before.block_ids == block_ids && before.final_waiters.len()
                < 16 ==> reply is Waiting && now == (RetirementView {
                final_requested: true,
                final_waiters: before.final_waiters.push(waiter),
                ..before
            })
            &&& known && before.block_ids == block_ids && before.final_waiters.len()
                >= 16 ==> now == before && reply
                == RetirementReply::Failed(WorkerError::ResourceExhausted)
            &&& other != id ==> next.pending.contains_key(other) == state.pending.contains_key(
                other,
            ) && next.pending[other] == state.pending[other]
        }),
{
    let (next, reply) = state.final_asked(id, block_ids, waiter, cutoff);
    if !state.pending.contains_key(id) {
        assert(next.pending[id].final_waiters =~= seq![waiter]);
    }
}

/// A request without a name or without blocks fails, one for a retirement that is remembered to have
/// ended is told so, and no other is answered before a look at the retirement. The end of a
/// retirement is remembered, with as many of those that ended last as there is room for.
pub proof fn the_end_of_a_retirement_is_remembered(
    state: RetirementsView,
    id: Seq<u8>,
    block_ids: Seq<Seq<u8>>,
    other: Seq<u8>,
)
    ensures
        id.len() == 0 || block_ids.len() == 0 ==> state.early_reply(id, block_ids) matches Some(
            RetirementReply::Failed(WorkerError::InvalidArgument(_)),
        ),
        id.len() > 0 && block_ids.len() > 0 ==> state.early_reply(id, block_ids) == if exists|i: int|
            0 <= i < state.completed.len() && #[trigger] state.completed[i] == id {
            Some(RetirementReply::Done)
        } else {
            None
        },
        ({
            let next = remembered(state.completed, id);
            let longer = state.completed.push(id);
            &&& next.contains(id)
            &&& state.completed.len() <= 1024 ==> next.len()
                <= 1024
            &&& next.contains(other) ==> other == id || state.completed.contains(other)
            &&& state.completed.len() < 1024
                && state.completed.contains(other) ==> next.contains(other)
            &&& state.completed.len() == 1024
                && !state.completed.contains(id) ==> next == state.completed.skip(1).push(id)
        }),
{
    let next = remembered(state.completed, id);
    let longer = state.completed.push(id);
    assert(longer[longer.len() - 1] == id);
    if !state.completed.contains(id) {
        assert(next.last() == id);
        assert(next[next.len() - 1] == id);
        if state.completed.len() < COMPLETED_RETIREMENT_CACHE_LIMIT {
            assert(next == longer);
            if state.completed.contains(other) {
                let i = choose|i: int|
                    0 <= i < state.completed.len() && state.completed[i] == other;
                assert(next[i] == other);
            }
        } else if state.completed.len() == COMPLETED_RETIREMENT_CACHE_LIMIT {
            assert(next =~= state.completed.skip(1).push(id));
        }
        if next.contains(other) {
            let i = choose|i: int| 0 <= i < next.len() && next[i] == other;
            let at = i + (longer.len() - next.len());
            assert(next[i] == longer[at]);
            if at < state.completed.len() {
                assert(state.completed[at] == other);
            }
        }
    }
}

/// Whether two lists of names are the same.
pub fn same_names(left: &Vec<Vec<u8>>, right: &Vec<Vec<u8>>) -> (same: bool)
    ensures
        same == (views(left@) == views(right@)),
{
    let ghost l = views(left@);
    let ghost r = views(right@);
    if left.len() != right.len() {
        assert(l.len() != r.len());
        return false;
    }
    let mut i: usize = 0;
    while i < left.len()
        invariant
            i <= left@.len(),
            left@.len() == right@.len(),
            l == views(left@),
            r == views(right@),
            forall|j: int| #![trigger l[j]] 0 <= j < i ==> l[j] == r[j],
        decreases left.len() - i,
    {
        if !same_bytes(&left[i], &right[i]) {
            assert(l[i as int] != r[i as int]);
            return false;
        }
        i = i + 1;
    }
    assert(l =~= r);
    true
}

/// Whether a list of names holds one.
pub fn holds_name(names: &Vec<Vec<u8>>, name: &Vec<u8>) -> (found: bool)
    ensures
        found == views(names@).contains(name@),
{
    let ghost all = views(names@);
    let mut i: usize = 0;
    while i < names.len()
        invariant
            i <= names@.len(),
            all == views(names@),
            forall|j: int| #![trigger all[j]] 0 <= j < i ==> all[j] != name@,
        decreases names.len() - i,
    {
        if same_bytes(&names[i], name) {
            assert(all[i as int] == name@);
            return true;
        }
        i = i + 1;
    }
    false
}

/// An equal list of names.
pub fn copy_names(names: &Vec<Vec<u8>>) -> (copy: Vec<Vec<u8>>)
    ensures
        views(copy@) == views(names@),
{
    let mut copy: Vec<Vec<u8>> = Vec::with_capacity(names.len());
    let mut i: usize = 0;
    while i < names.len()
        invariant
            i <= names@.len(),
            views(copy@) =~= views(names@).take(i as int),
        decreases names.len() - i,
    {
        let ghost so_far = copy@;
        copy.push(copy_bytes(&names[i]));
        proof {
            lemma_views_push(so_far, copy@.last());
            lemma_views_take(names@, i as int);
        }
        i = i + 1;
    }
    copy
}

impl Retirements {
    /// No retirements.
    pub fn new() -> (retirements: Self)
        ensures
            retirements@ == (RetirementsView {
                pending: Map::empty(),
                completed: Seq::empty(),
                retiring: Set::empty(),
            }),
    {
        let retirements = Retirements {
            pending: Table::new(),
            completed: Vec::new(),
            retiring: KeySet::new(),
        };
        assert(views(retirements.completed@) =~= Seq::empty());
        retirements
    }

    /// Whether a retirement is remembered to have ended.
    pub fn completed_retirement(&self, id: &Vec<u8>) -> (completed: bool)
        ensures
            completed == self@.completed.contains(id@),
    {
        holds_name(&self.completed, id)
    }

    /// Remembers that a retirement has ended. The oldest are forgotten first.
    pub fn remember_completed_retirement(&mut self, id: Vec<u8>)
        ensures
            final(self)@ == (RetirementsView {
                completed: remembered(old(self)@.completed, id@),
                ..old(self)@
            }),
    {
        let ghost before = self@;
        let ghost name = id@;
        if self.completed_retirement(&id) {
            return;
        }
        let ghost so_far = self.completed@;
        self.completed.push(id);
        proof {
            lemma_views_push(so_far, self.completed@.last());
        }
        let ghost longer = views(self.completed@);
        assert(longer =~= before.completed.push(name));
        let ghost mut dropped: int = 0;
        while self.completed.len() > COMPLETED_RETIREMENT_CACHE_LIMIT
            invariant
                0 <= dropped <= longer.len(),
                self@ == (RetirementsView { completed: views(self.completed@), ..before }),
                views(self.completed@) =~= longer.skip(dropped),
                dropped > 0 ==> self.completed@.len() >= COMPLETED_RETIREMENT_CACHE_LIMIT,
                dropped + self.completed@.len() == longer.len(),
            decreases self.completed.len(),
        {
            let ghost so_far = self.completed@;
            let _ = self.completed.remove(0);
            proof {
                dropped = dropped + 1;
                assert(self.completed@ =~= so_far.skip(1));
                assert(views(self.completed@) =~= views(so_far).skip(1));
                assert(longer.skip(dropped - 1).skip(1) =~= longer.skip(dropped));
            }
        }
        proof {
            if longer.len() > COMPLETED_RETIREMENT_CACHE_LIMIT {
                assert(self.completed@.len() == COMPLETED_RETIREMENT_CACHE_LIMIT);
            } else {
                assert(longer.skip(0) =~= longer);
            }
        }
    }

    /// Whether a read that began in a scope may not use a block any more.
    pub fn retirement_blocks_new_reads(&self, block_id: &Vec<u8>, read_scope_id: u64) -> (blocked: bool)
        ensures
            blocked == self@.blocks_new_reads(block_id@, read_scope_id),
    {
        if !self.retiring.contains(block_id) {
            return false;
        }
        let covers = |id: &Vec<u8>, pending: &PendingRetirement| -> (met: bool)
            ensures
                met == (pending@.names(block_id@) && read_scope_id <= pending@.cutoff_scope),
        {
            let named: bool = holds_name(&pending.block_ids, block_id);
            proof {
                let ids = views(pending.block_ids@);
                if ids.contains(block_id@) {
                    let i = choose|i: int| 0 <= i < ids.len() && ids[i] == block_id@;
                    assert(pending@.block_ids[i] == block_id@);
                }
            }
            named && read_scope_id <= pending.cutoff_scope
        };
        let ghost test = |id: Seq<u8>, pending: RetirementView|
            pending.names(block_id@) && read_scope_id <= pending.cutoff_scope;
        let covered: bool = self.pending.any(covers, Ghost(test));
        proof {
            if covered {
                let id = choose|id: Seq<u8>|
                    #![trigger self.pending@.contains_key(id)]
                    self.pending@.contains_key(id) && test(id, self.pending@[id]);
                assert(self@.pending.contains_key(id));
            }
        }
        !covered
    }

    /// The answer that a request gets without a look at the retirement.
    pub fn answer_early(&self, id: &Vec<u8>, block_ids: &Vec<Vec<u8>>) -> (reply: Option<
        RetirementReply,
    >)
        ensures
            reply == self@.early_reply(id@, views(block_ids@)),
    {
        if id.len() == 0 || block_ids.len() == 0 {
            return Some(
                RetirementReply::Failed(
                    WorkerError::InvalidArgument("retirement id and blocks are required"),
                ),
            );
        }
        if self.completed_retirement(id) {
            return Some(RetirementReply::Done);
        }
        None
    }

    fn take_entry(&mut self, id: &Vec<u8>, block_ids: &Vec<Vec<u8>>, cutoff: u64) -> (entry:
        PendingRetirement)
        ensures
            entry@ == old(self)@.entry(id@, views(block_ids@), cutoff),
            final(self)@ == (RetirementsView {
                pending: old(self)@.pending.remove(id@),
                ..old(self)@
            }),
    {
        match self.pending.remove(id) {
            Some(entry) => entry,
            None => {
                let entry = PendingRetirement {
                    block_ids: copy_names(block_ids),
                    cutoff_scope: cutoff,
                    prepared: false,
                    final_requested: false,
                    prepare_waiters: Vec::new(),
                    final_waiters: Vec::new(),
                };
                assert(entry.prepare_waiters@ =~= Seq::empty());
                assert(entry.final_waiters@ =~= Seq::empty());
                entry
            },
        }
    }

    /// Closes blocks to reads that begin later.
    pub fn close_blocks(&mut self, block_ids: &Vec<Vec<u8>>)
        ensures
            final(self)@ == (RetirementsView {
                retiring: old(self)@.retiring.union(views(block_ids@).to_set()),
                ..old(self)@
            }),
    {
        let ghost before = self@;
        let ghost names = views(block_ids@);
        let mut i: usize = 0;
        assert(names.take(0).to_set() =~= Set::empty());
        assert(before.retiring.union(names.take(0).to_set()) =~= before.retiring);
        while i < block_ids.len()
            invariant
                i <= block_ids@.len(),
                names == views(block_ids@),
                self@ == (RetirementsView { retiring: self@.retiring, ..before }),
                self@.retiring =~= before.retiring.union(names.take(i as int).to_set()),
            decreases block_ids.len() - i,
        {
            self.retiring.insert(copy_bytes(&block_ids[i]));
            proof {
                lemma_prefix_set(names, i as int);
            }
            i = i + 1;
        }
        assert(names.take(i as int) =~= names);
    }

    /// Closes blocks to new reads, and waits until the reads that began before have ended.
    pub fn ask_to_prepare(
        &mut self,
        id: &Vec<u8>,
        block_ids: &Vec<Vec<u8>>,
        waiter: u64,
        cutoff: u64,
    ) -> (reply: RetirementReply)
        ensures
            (final(self)@, reply) == old(self)@.prepare_asked(
                id@,
                views(block_ids@),
                waiter,
                cutoff,
            ),
    {
        let ghost before = self@;
        let ghost names = views(block_ids@);
        self.close_blocks(block_ids);
        let entry = self.take_entry(id, block_ids, cutoff);
        let mut entry = entry;
        let ghost initial = entry@;
        let same: bool = same_names(&entry.block_ids, block_ids);
        let reply: RetirementReply = if !same {
            RetirementReply::Failed(WorkerError::Conflict)
        } else if entry.prepared {
            RetirementReply::Done
        } else if entry.prepare_waiters.len() >= RETIREMENT_PHASE_WAITER_LIMIT {
            RetirementReply::Failed(WorkerError::ResourceExhausted)
        } else {
            entry.prepare_waiters.push(waiter);
            RetirementReply::Waiting
        };
        let ghost next = entry@;
        self.pending.insert(copy_bytes(id), entry);
        assert(self@.pending =~= before.pending.insert(id@, next));
        reply
    }

    /// Asks for blocks to be released, and waits until nobody uses their memory.
    pub fn ask_to_finish(
        &mut self,
        id: &Vec<u8>,
        block_ids: &Vec<Vec<u8>>,
        waiter: u64,
        cutoff: u64,
    ) -> (reply: RetirementReply)
        ensures
            (final(self)@, reply) == old(self)@.final_asked(
                id@,
                views(block_ids@),
                waiter,
                cutoff,
            ),
    {
        let ghost before = self@;
        let entry = self.take_entry(id, block_ids, cutoff);
        let mut entry = entry;
        let same: bool = same_names(&entry.block_ids, block_ids);
        let reply: RetirementReply = if !same {
            RetirementReply::Failed(WorkerError::Conflict)
        } else if entry.final_waiters.len() >= RETIREMENT_PHASE_WAITER_LIMIT {
            RetirementReply::Failed(WorkerError::ResourceExhausted)
        } else {
            entry.final_requested = true;
            entry.final_waiters.push(waiter);
            RetirementReply::Waiting
        };
        let ghost next = entry@;
        self.pending.insert(copy_bytes(id), entry);
        assert(self@.pending =~= before.pending.insert(id@, next));
        reply
    }
}

/// A prefix that is one longer holds one more.
pub proof fn lemma_prefix_set<T>(items: Seq<T>, n: int)
    requires
        0 <= n < items.len(),
    ensures
        items.take(n + 1).to_set() =~= items.take(n).to_set().insert(items[n]),
{
    let longer = items.take(n + 1);
    let shorter = items.take(n);
    assert forall|item: T| longer.to_set().contains(item) == shorter.to_set().insert(
        items[n],
    ).contains(item) by {
        if shorter.contains(item) {
            let j = choose|j: int| 0 <= j < shorter.len() && shorter[j] == item;
            assert(longer[j] == item);
        }
        if item == items[n] {
            assert(longer[n] == item);
        }
        if longer.contains(item) && item != items[n] {
            let j = choose|j: int| 0 <= j < longer.len() && longer[j] == item;
            assert(shorter[j] == item);
        }
    }
}

/// What is remembered was remembered before or has ended since, and is not too much.
pub proof fn lemma_remembered_all(completed: Seq<Seq<u8>>, ids: Seq<Seq<u8>>)
    requires
        completed.len() <= 1024,
    ensures
        remembered_all(completed, ids).len() <= 1024,
        forall|id: Seq<u8>| #[trigger]
            remembered_all(completed, ids).contains(id) ==> completed.contains(id) || ids.contains(
                id,
            ),
    decreases ids.len(),
{
    if ids.len() > 0 {
        let earlier = remembered_all(completed, ids.drop_last());
        lemma_remembered_all(completed, ids.drop_last());
        let next = remembered_all(completed, ids);
        assert forall|id: Seq<u8>| #[trigger] next.contains(id) implies completed.contains(id)
            || ids.contains(id) by {
            if id == ids.last() {
                assert(ids[ids.len() - 1] == id);
            } else {
                let at = choose|at: int| 0 <= at < next.len() && next[at] == id;
                let dropped = if next.len() == earlier.len() + 1 || earlier.contains(ids.last()) {
                    0
                } else {
                    1int
                };
                assert(at + dropped < earlier.len());
                assert(earlier[at + dropped] == id);
                assert(earlier.contains(id));
                if ids.drop_last().contains(id) {
                    let j = choose|j: int|
                        0 <= j < ids.drop_last().len() && ids.drop_last()[j] == id;
                    assert(ids[j] == id);
                }
            }
        }
    }
}

/// Where among the remembered one of those stands that have ended since: no further from the end
/// than in their own order.
proof fn lemma_remembered_at(completed: Seq<Seq<u8>>, ids: Seq<Seq<u8>>, j: int) -> (at: int)
    requires
        completed.len() <= COMPLETED_RETIREMENT_CACHE_LIMIT,
        ids.len() <= COMPLETED_RETIREMENT_CACHE_LIMIT,
        ids.no_duplicates(),
        0 <= j < ids.len(),
        !completed.contains(ids[j]),
    ensures
        0 <= at < remembered_all(completed, ids).len(),
        remembered_all(completed, ids)[at] == ids[j],
        at >= remembered_all(completed, ids).len() - (ids.len() - j),
    decreases ids.len(),
{
    let rest = ids.drop_last();
    let earlier = remembered_all(completed, rest);
    let next = remembered_all(completed, ids);
    lemma_remembered_all(completed, rest);
    if j == ids.len() - 1 {
        assert(!earlier.contains(ids[j])) by {
            if rest.contains(ids[j]) {
                let i = choose|i: int| 0 <= i < rest.len() && rest[i] == ids[j];
                assert(ids[i] == ids[j]);
            }
        }
        next.len() - 1
    } else {
        assert(rest[j] == ids[j]);
        assert(rest.no_duplicates()) by {
            assert forall|a: int, b: int| 0 <= a < rest.len() && 0 <= b < rest.len() && a
                != b implies rest[a] != rest[b] by {
                assert(ids[a] != ids[b]);
            }
        }
        let at = lemma_remembered_at(completed, rest, j);
        if earlier.contains(ids.last()) || earlier.len() < COMPLETED_RETIREMENT_CACHE_LIMIT {
            at
        } else {
            at - 1
        }
    }
}

/// One of those that have just ended is remembered, if not too many ended with it.
pub proof fn lemma_remembered(completed: Seq<Seq<u8>>, ids: Seq<Seq<u8>>, id: Seq<u8>)
    requires
        completed.len() <= 1024,
        ids.len() <= 1024,
        ids.no_duplicates(),
        ids.contains(id),
        !completed.contains(id),
    ensures
        remembered_all(completed, ids).contains(id),
{
    let j = choose|j: int| 0 <= j < ids.len() && ids[j] == id;
    let at = lemma_remembered_at(completed, ids, j);
    assert(remembered_all(completed, ids)[at] == id);
}

/// A retirement that has ended is remembered: whoever asks for it again is told at once that it is
/// done. Only so many are remembered.
pub proof fn an_ended_retirement_is_answered_at_once(
    retirements: RetirementsView,
    id: Seq<u8>,
    block_ids: Seq<Seq<u8>>,
)
    requires
        id.len() > 0,
        block_ids.len() > 0,
        retirements.completed.len() <= 1024,
    ensures
        ({
            let next = RetirementsView {
                completed: remembered(retirements.completed, id),
                ..retirements
            };
            &&& next.early_reply(id, block_ids) == Some(RetirementReply::Done)
            &&& next.completed.len() <= 1024
        }),
{
    let completed = remembered(retirements.completed, id);
    if !retirements.completed.contains(id) {
        assert(completed[completed.len() - 1] == id);
    }
}

/// A read that began before a retirement may still use the retirement's blocks; one that began
/// after it may not, unless another retirement of the same block came later still.
pub proof fn a_retirement_closes_blocks_to_later_reads(
    retirements: RetirementsView,
    id: Seq<u8>,
    block_ids: Seq<Seq<u8>>,
    waiter: u64,
    cutoff: u64,
    block_id: Seq<u8>,
    read_scope_id: u64,
)
    requires
        block_ids.contains(block_id),
        !retirements.pending.contains_key(id),
        forall|other: Seq<u8>| #[trigger]
            retirements.pending.contains_key(other) ==> retirements.pending[other].cutoff_scope
                <= cutoff,
    ensures
        retirements.prepare_asked(id, block_ids, waiter, cutoff).0.blocks_new_reads(
            block_id,
            read_scope_id,
        ) <==> read_scope_id > cutoff,
{
    let next = retirements.prepare_asked(id, block_ids, waiter, cutoff).0;
    assert(block_ids.to_set().contains(block_id));
    let i = choose|i: int| 0 <= i < block_ids.len() && block_ids[i] == block_id;
    assert(next.pending[id].block_ids[i] == block_id);
    assert(next.pending.contains_key(id) && next.pending[id].names(block_id));
}

} // verus!
