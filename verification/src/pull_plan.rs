//! Several blocks pulled from one node in one stream. The blocks come in the order of the plan, each
//! in chunks. A block that is whole is checked and handed over to be installed while the next comes
//! in; no more than two installations are under way. Whatever the stream does not bring is left to
//! be pulled block by block.
use crate::bytes::{append_bytes, copy_bytes, same_bytes};
#[allow(unused_imports)]
use crate::bytes::{lemma_views_push, lemma_views_take, views};
use crate::digest::digest;
#[allow(unused_imports)]
use crate::digest::sha256_of;
use crate::error::WorkerError;
use crate::node_import::PeerBlockResult;
#[allow(unused_imports)]
use crate::node_import::BlockResultView;
use crate::payload::Payload;
use crate::peer_import::{PeerImportFailure, PeerImportWork};
#[allow(unused_imports)]
use crate::peer_import::PullSpecView;
use crate::peer_pull::buffer_for;
use crate::table::Table;
use vstd::prelude::*;

verus! {

/// The most installations that are under way.
pub const PENDING_INSTALLS_MAX: usize = 2;

/// A chunk of a block, as it comes in a stream.
#[derive(Debug)]
pub struct PullChunk {
    pub block_id: Vec<u8>,
    pub block_length: u64,
    pub block_offset: u64,
    pub payload: Payload,
    pub end_of_block: bool,
    pub checksum: Vec<u8>,
    pub serving_node_id: String,
}

/// A chunk of a block, as a value.
#[verifier::ext_equal]
pub struct ChunkView {
    pub block_id: Seq<u8>,
    pub block_length: u64,
    pub block_offset: u64,
    pub payload: Seq<u8>,
    pub end_of_block: bool,
    pub checksum: Seq<u8>,
    pub serving_node_id: Seq<char>,
}

impl View for PullChunk {
    type V = ChunkView;

    open spec fn view(&self) -> ChunkView {
        ChunkView {
            block_id: self.block_id@,
            block_length: self.block_length,
            block_offset: self.block_offset,
            payload: self.payload@,
            end_of_block: self.end_of_block,
            checksum: self.checksum@,
            serving_node_id: self.serving_node_id@,
        }
    }
}

/// What came of the import of a block.
#[derive(Debug, PartialEq, Eq)]
pub struct PeerImportCompletion {
    pub block_id: Vec<u8>,
    pub attempt: u64,
    pub failure: Option<PeerImportFailure>,
}

/// What came of the import of a block, as a value.
#[verifier::ext_equal]
pub struct ImportResultView {
    pub block_id: Seq<u8>,
    pub attempt: u64,
    pub failure: Option<PeerImportFailure>,
}

impl View for PeerImportCompletion {
    type V = ImportResultView;

    open spec fn view(&self) -> ImportResultView {
        ImportResultView {
            block_id: self.block_id@,
            attempt: self.attempt,
            failure: self.failure,
        }
    }
}

/// An installation that is under way.
#[derive(Debug, PartialEq, Eq)]
pub struct PendingInstall {
    pub block_id: Vec<u8>,
    pub attempt: u64,
}

impl View for PendingInstall {
    type V = (Seq<u8>, u64);

    open spec fn view(&self) -> (Seq<u8>, u64) {
        (self.block_id@, self.attempt)
    }
}

/// What a plan does next.
#[derive(Clone, Copy, Debug, PartialEq, Eq, Structural)]
pub enum PlanPhase {
    /// It reads the next chunk of the stream.
    Reading,
    /// It hands a whole block over to be installed.
    Beginning,
    /// It waits for the oldest installation, and then reads on.
    Finishing,
    /// It waits for the installations that are under way, the oldest first, and then is over.
    Draining,
    Over,
}

/// Blocks that are pulled in one stream.
pub struct PlanPull {
    pub work: Vec<PeerImportWork>,
    /// How many blocks were handed over.
    pub index: usize,
    /// The bytes of the next block so far.
    pub payload: Vec<u8>,
    pub serving_node_id: String,
    pub checksum: Vec<u8>,
    pub pending: Vec<PendingInstall>,
    pub installed: Vec<PeerImportCompletion>,
    pub phase: PlanPhase,
    /// Whether the stream brought every block.
    pub stream_complete: bool,
}

/// Blocks that are pulled in one stream, as a value.
#[verifier::ext_equal]
pub struct PlanView {
    pub work: Seq<(PullSpecView, u64)>,
    pub index: usize,
    pub payload: Seq<u8>,
    pub serving_node_id: Seq<char>,
    pub checksum: Seq<u8>,
    pub pending: Seq<(Seq<u8>, u64)>,
    pub installed: Seq<ImportResultView>,
    pub phase: PlanPhase,
    pub stream_complete: bool,
}

impl View for PlanPull {
    type V = PlanView;

    open spec fn view(&self) -> PlanView {
        PlanView {
            work: views(self.work@),
            index: self.index,
            payload: self.payload@,
            serving_node_id: self.serving_node_id@,
            checksum: self.checksum@,
            pending: views(self.pending@),
            installed: views(self.installed@),
            phase: self.phase,
            stream_complete: self.stream_complete,
        }
    }
}

/// The failure of an installation, which no other location can mend.
pub open spec fn terminal_failure(error: Option<WorkerError>) -> Option<PeerImportFailure> {
    match error {
        Some(error) => Some(PeerImportFailure { error, location_failure: false }),
        None => None,
    }
}

/// The blocks of some work, each with its attempt.
pub open spec fn named(work: Seq<(PullSpecView, u64)>) -> Seq<(Seq<u8>, u64)> {
    work.map_values(|item: (PullSpecView, u64)| (item.0.block_id, item.1))
}

impl PlanView {
    /// The blocks that were handed over, each with its attempt: first those whose installation has
    /// ended, then those whose installation is under way.
    pub open spec fn handed_over(self) -> Seq<(Seq<u8>, u64)> {
        self.installed.map_values(|result: ImportResultView| (result.block_id, result.attempt))
            + self.pending
    }

    /// What is true of a plan at any time. What was handed over is what comes first in the work, each
    /// once, and in its order until the plan comes to its end.
    pub open spec fn wf(self) -> bool {
        &&& self.index <= self.work.len()
        &&& self.pending.len() <= PENDING_INSTALLS_MAX
        &&& self.handed_over().to_multiset() == named(self.work).take(
            self.index as int,
        ).to_multiset()
        &&& self.phase is Reading || self.phase is Beginning || self.phase is Finishing
            ==> self.handed_over() == named(self.work).take(self.index as int)
        &&& self.phase is Reading || self.phase is Beginning ==> self.pending.len()
            < PENDING_INSTALLS_MAX && self.index < self.work.len()
        &&& self.phase is Finishing || self.phase is Draining ==> self.pending.len() > 0
        &&& self.phase is Over ==> self.pending.len() == 0
        &&& self.work.len() <= usize::MAX
    }

    /// The block that comes next.
    pub open spec fn spec(self) -> PullSpecView {
        self.work[self.index as int].0
    }

    /// Whether there may or may not be memory for the next block, where it begins: an empty block
    /// needs none, and a length that no buffer can have gets none.
    pub open spec fn may_have_room(self, room: bool) -> bool {
        self.payload.len() == 0 ==> {
            &&& self.spec().expected_length == 0 ==> room
            &&& self.spec().expected_length > usize::MAX ==> !room
        }
    }

    /// Whether a chunk is not what comes next.
    pub open spec fn chunk_fault(self, chunk: ChunkView) -> bool {
        let spec = self.spec();
        ||| chunk.block_id != spec.block_id
        ||| chunk.block_length != spec.expected_length
        ||| chunk.block_offset != self.payload.len()
        ||| chunk.payload.len() == 0
        ||| spec.expected_checksum.len() > 0 && chunk.checksum != spec.expected_checksum
        ||| self.checksum.len() > 0 && chunk.checksum != self.checksum
        ||| self.payload.len() > 0 && self.serving_node_id != chunk.serving_node_id
    }

    /// Whether a block is not what was expected, once it is whole.
    pub open spec fn block_fault(self, checksum: Seq<u8>, payload: Seq<u8>) -> bool {
        let spec = self.spec();
        ||| payload.len() != spec.expected_length
        ||| spec.expected_checksum.len() > 0 && sha256_of(payload) != spec.expected_checksum
        ||| checksum.len() > 0 && sha256_of(payload) != checksum
    }

    /// The plan after the stream ended: what is under way is waited for.
    pub open spec fn ended(self) -> PlanView {
        PlanView {
            phase: if self.pending.len() == 0 {
                PlanPhase::Over
            } else {
                PlanPhase::Draining
            },
            ..self
        }
    }

    /// The plan after a chunk came, and the block that is whole with it. `room` says whether there
    /// is memory for a block that begins.
    pub open spec fn chunk_taken(self, chunk: ChunkView, room: bool) -> (
        PlanView,
        Option<BlockResultView>,
    ) {
        let first = self.payload.len() == 0;
        let checksum = if first {
            chunk.checksum
        } else {
            self.checksum
        };
        let serving_node_id = if first {
            chunk.serving_node_id
        } else {
            self.serving_node_id
        };
        let payload = self.payload + chunk.payload;
        let begun = PlanView { checksum, serving_node_id, payload, ..self };
        if self.chunk_fault(chunk) || (first && !room) {
            (self.ended(), None)
        } else if !chunk.end_of_block {
            (begun, None)
        } else if self.block_fault(checksum, payload) {
            (begun.ended(), None)
        } else {
            (
                PlanView { phase: PlanPhase::Beginning, payload: Seq::empty(), ..begun },
                Some(
                    BlockResultView {
                        serving_node_id,
                        block_id: self.spec().block_id,
                        checksum: if checksum.len() == 0 {
                            sha256_of(payload)
                        } else {
                            checksum
                        },
                        length: self.spec().expected_length,
                        payload,
                    },
                ),
            )
        }
    }

    /// The plan after a block was dealt with: it reads on, or it is at its end.
    pub open spec fn reading_on(self) -> PlanView {
        if self.index == self.work.len() {
            PlanView { stream_complete: true, ..self }.ended()
        } else {
            PlanView { phase: PlanPhase::Reading, checksum: Seq::empty(), ..self }
        }
    }

    /// The plan after a block was handed over, or could not be.
    pub open spec fn begun(self, error: Option<WorkerError>) -> PlanView {
        let (spec, attempt) = self.work[self.index as int];
        let next = PlanView { index: (self.index + 1) as usize, ..self };
        match error {
            Some(_) => PlanView {
                installed: self.installed.push(
                    ImportResultView {
                        block_id: spec.block_id,
                        attempt,
                        failure: terminal_failure(error),
                    },
                ),
                ..next
            }.ended(),
            None => {
                let waiting = PlanView {
                    pending: self.pending.push((spec.block_id, attempt)),
                    ..next
                };
                if waiting.pending.len() >= PENDING_INSTALLS_MAX {
                    PlanView { phase: PlanPhase::Finishing, ..waiting }
                } else {
                    waiting.reading_on()
                }
            },
        }
    }

    /// The plan after the oldest installation ended.
    pub open spec fn finished(self, error: Option<WorkerError>) -> PlanView {
        let (block_id, attempt) = self.pending[0];
        let next = PlanView {
            pending: self.pending.drop_first(),
            installed: self.installed.push(
                ImportResultView { block_id, attempt, failure: terminal_failure(error) },
            ),
            ..self
        };
        if self.phase is Finishing && error is None {
            next.reading_on()
        } else {
            next.ended()
        }
    }
}

/// A block that a stream hands over is the next of the plan, whole, and has the checksum that was
/// expected of it.
pub proof fn a_streamed_block_is_the_one_that_was_asked_for(
    plan: PlanView,
    chunk: ChunkView,
    room: bool,
)
    requires
        plan.wf(),
        plan.phase is Reading,
        plan.chunk_taken(chunk, room).1 is Some,
    ensures
        ({
            let block = plan.chunk_taken(chunk, room).1->0;
            let spec = plan.spec();
            &&& block.block_id == spec.block_id
            &&& block.length == spec.expected_length
            &&& block.payload.len() == spec.expected_length
            &&& block.checksum == sha256_of(block.payload)
            &&& spec.expected_checksum.len() > 0 ==> block.checksum == spec.expected_checksum
        }),
{
}

/// A chunk is taken if it is of the block that comes next, says that block's length and its checksum,
/// begins where the bytes so far end, is not empty, and comes from the node that the chunks before it
/// came from. Its bytes then follow theirs, and with the last one the block is those bytes together.
/// After any other chunk nothing more is read.
pub proof fn chunks_of_a_block_follow_each_other(plan: PlanView, chunk: ChunkView)
    requires
        plan.wf(),
        plan.phase is Reading,
    ensures
        ({
            let (next, block) = plan.chunk_taken(chunk, true);
            let spec = plan.work[plan.index as int].0;
            let fits = chunk.block_id == spec.block_id && chunk.block_length
                == spec.expected_length && chunk.block_offset == plan.payload.len()
                && chunk.payload.len() > 0 && (spec.expected_checksum.len() == 0 || chunk.checksum
                == spec.expected_checksum) && (plan.checksum.len() == 0 || chunk.checksum
                == plan.checksum) && (plan.payload.len() == 0 || chunk.serving_node_id
                == plan.serving_node_id);
            &&& !fits ==> block is None && (next.phase is Over || next.phase is Draining)
            &&& fits && !chunk.end_of_block ==> block is None && next.phase is Reading
                && next.payload == plan.payload + chunk.payload && next.index == plan.index
            &&& block matches Some(whole) ==> fits && chunk.end_of_block && whole.payload
                == plan.payload + chunk.payload && next.phase is Beginning && next.payload.len()
                == 0 && next.index == plan.index
            &&& fits && chunk.end_of_block && (plan.payload + chunk.payload).len()
                == spec.expected_length && spec.expected_checksum == sha256_of(
                plan.payload + chunk.payload,
            ) && (plan.payload.len() == 0 || plan.checksum == spec.expected_checksum)
                && spec.expected_checksum.len() > 0 ==> block is Some
            &&& next.pending == plan.pending
            &&& next.installed == plan.installed
            &&& next.work == plan.work
        }),
        plan.payload.len() == 0 ==> plan.chunk_taken(chunk, false).1 is None && !(plan.chunk_taken(
            chunk,
            false,
        ).0.phase is Reading),
{
}

/// A block that was handed over is told of under its own attempt, with the error that it ended with
/// or with none, in the order in which blocks were handed over. After an error nothing more is read.
pub proof fn each_block_is_told_of_with_its_own_end(plan: PlanView, error: Option<WorkerError>)
    requires
        plan.wf(),
    ensures
        plan.phase is Beginning ==> {
            let next = plan.begun(error);
            let (spec, attempt) = plan.work[plan.index as int];
            &&& next.index == plan.index + 1
            &&& error is None ==> next.pending == plan.pending.push((spec.block_id, attempt))
                && next.installed == plan.installed
            &&& error is Some ==> next.pending == plan.pending && next.installed.len()
                == plan.installed.len() + 1 && next.installed.last().block_id == spec.block_id
                && next.installed.last().attempt == attempt && (
            next.installed.last().failure matches Some(failure) && failure.error == error->0
                && !failure.location_failure) && !(next.phase is Reading)
        },
        plan.phase is Finishing || plan.phase is Draining ==> {
            let next = plan.finished(error);
            &&& next.index == plan.index
            &&& next.pending == plan.pending.drop_first()
            &&& next.installed.len() == plan.installed.len() + 1
            &&& next.installed.drop_last() == plan.installed
            &&& next.installed.last().block_id == plan.pending[0].0
            &&& next.installed.last().attempt == plan.pending[0].1
            &&& error is None ==> next.installed.last().failure is None
            &&& error is Some ==> (next.installed.last().failure matches Some(failure)
                && failure.error == error->0 && !failure.location_failure)
            &&& next.phase is Reading <==> plan.phase is Finishing && error is None && plan.index
                < plan.work.len()
        },
{
    if plan.phase is Finishing || plan.phase is Draining {
        assert(plan.finished(error).installed.drop_last() =~= plan.installed);
    }
}

/// A plan whose next block was handed over, or could not be, is sound.
proof fn lemma_begun(plan: PlanView, error: Option<WorkerError>)
    requires
        plan.wf(),
        plan.phase is Beginning,
    ensures
        plan.begun(error).wf(),
{
    broadcast use vstd::seq_lib::group_to_multiset_ensures;

    let next = plan.begun(error);
    let (spec, attempt) = plan.work[plan.index as int];
    let item = (spec.block_id, attempt);
    let names = |result: ImportResultView| (result.block_id, result.attempt);
    let ended = plan.installed.map_values(names);
    assert(named(plan.work).take(plan.index + 1) =~= named(plan.work).take(plan.index as int).push(
        item,
    ));
    assert(plan.handed_over().len() == plan.index);
    if error is Some {
        assert(next.installed.map_values(names) =~= ended.push(item));
        assert(next.handed_over() =~= ended + (seq![item] + plan.pending));
        vstd::seq_lib::lemma_multiset_commutative(ended, seq![item] + plan.pending);
        vstd::seq_lib::lemma_multiset_commutative(seq![item], plan.pending);
        vstd::seq_lib::lemma_multiset_commutative(ended, plan.pending);
        assert(plan.handed_over().push(item) =~= (ended + plan.pending) + seq![item]);
        vstd::seq_lib::lemma_multiset_commutative(ended + plan.pending, seq![item]);
        assert(next.handed_over().to_multiset() =~= plan.handed_over().push(item).to_multiset());
    } else {
        assert(next.handed_over() =~= plan.handed_over().push(item));
    }
}

/// A plan whose oldest installation ended is sound.
proof fn lemma_finished(plan: PlanView, error: Option<WorkerError>)
    requires
        plan.wf(),
        plan.phase is Finishing || plan.phase is Draining,
    ensures
        plan.finished(error).wf(),
{
    let next = plan.finished(error);
    let names = |result: ImportResultView| (result.block_id, result.attempt);
    assert(next.installed.map_values(names) =~= plan.installed.map_values(names).push(
        plan.pending[0],
    ));
    assert(next.handed_over() =~= plan.handed_over());
}

/// A plan that is over has told of each block that it took up, once.
pub proof fn a_plan_that_is_over_tells_of_each_block_once(plan: PlanView)
    requires
        plan.wf(),
        plan.phase is Over,
    ensures
        plan.installed.map_values(
            |result: ImportResultView| (result.block_id, result.attempt),
        ).to_multiset() == named(plan.work).take(plan.index as int).to_multiset(),
        plan.installed.len() == plan.index,
{
    broadcast use vstd::seq_lib::group_to_multiset_ensures;

    let ended = plan.installed.map_values(
        |result: ImportResultView| (result.block_id, result.attempt),
    );
    assert(plan.handed_over() =~= ended);
    assert(ended.len() == ended.to_multiset().len());
    assert(named(plan.work).take(plan.index as int).len() == plan.index);
}

impl PlanPull {
    /// A plan for some blocks.
    pub fn new(work: Vec<PeerImportWork>) -> (plan: Self)
        ensures
            plan@.wf(),
            plan@ == (PlanView {
                work: views(work@),
                index: 0,
                payload: Seq::empty(),
                serving_node_id: Seq::empty(),
                checksum: Seq::empty(),
                pending: Seq::empty(),
                installed: Seq::empty(),
                phase: if work@.len() == 0 {
                    PlanPhase::Over
                } else {
                    PlanPhase::Reading
                },
                stream_complete: false,
            }),
    {
        let count: usize = work.len();
        let plan = PlanPull {
            phase: if work.len() == 0 {
                PlanPhase::Over
            } else {
                PlanPhase::Reading
            },
            work,
            index: 0,
            payload: Vec::new(),
            serving_node_id: String::new(),
            checksum: Vec::new(),
            pending: Vec::new(),
            installed: Vec::new(),
            stream_complete: false,
        };
        assert(views(plan.pending@) =~= Seq::empty());
        assert(views(plan.installed@) =~= Seq::empty());
        assert(count == views(work@).len());
        assert(plan@.handed_over() =~= named(plan@.work).take(0));
        plan
    }

    /// Notes that the stream ended.
    pub fn stream_ended(&mut self)
        requires
            old(self)@.wf(),
            old(self)@.phase is Reading,
        ensures
            final(self)@.wf(),
            final(self)@ == old(self)@.ended(),
    {
        self.end();
    }

    fn end(&mut self)
        ensures
            final(self)@ == old(self)@.ended(),
    {
        self.phase = if self.pending.len() == 0 {
            PlanPhase::Over
        } else {
            PlanPhase::Draining
        };
    }

    /// Takes a chunk. Returns the block that is whole with it.
    pub fn take_chunk(&mut self, chunk: PullChunk) -> (whole: Option<PeerBlockResult>)
        requires
            old(self)@.wf(),
            old(self)@.phase is Reading,
        ensures
            final(self)@.wf(),
            exists|room: bool|
                #![trigger old(self)@.chunk_taken(chunk@, room)]
                old(self)@.may_have_room(room) && final(self)@ == old(self)@.chunk_taken(
                    chunk@,
                    room,
                ).0 && match whole {
                    Some(block) => old(self)@.chunk_taken(chunk@, room).1 == Some(block@),
                    None => old(self)@.chunk_taken(chunk@, room).1 is None,
                },
    {
        let ghost before = self@;
        let mut buffer: Option<Vec<u8>> = None;
        if self.payload.len() == 0 {
            let spec = &self.work[self.index].spec;
            assert(spec@ == before.spec());
            buffer = buffer_for(spec.expected_length);
        }
        let ghost room = buffer is Some;
        let whole = self.take_chunk_into(&chunk, buffer);
        assert(before.may_have_room(room) && self@ == before.chunk_taken(chunk@, room).0);
        whole
    }

    /// Takes a chunk, with a buffer for a block that begins where there is memory for it. Returns
    /// the block that is whole with it.
    pub fn take_chunk_into(&mut self, chunk: &PullChunk, buffer: Option<Vec<u8>>) -> (whole: Option<
        PeerBlockResult,
    >)
        requires
            old(self)@.wf(),
            old(self)@.phase is Reading,
            buffer matches Some(bytes) ==> bytes@ == Seq::<u8>::empty(),
        ensures
            final(self)@.wf(),
            final(self)@ == old(self)@.chunk_taken(chunk@, buffer is Some).0,
            match whole {
                Some(block) => old(self)@.chunk_taken(chunk@, buffer is Some).1 == Some(block@),
                None => old(self)@.chunk_taken(chunk@, buffer is Some).1 is None,
            },
    {
        let ghost before = self@;
        let first: bool = self.payload.len() == 0;
        let bytes: &[u8] = chunk.payload.as_slice();
        let length: u64 = self.work[self.index].spec.expected_length;
        {
            let spec = &self.work[self.index].spec;
            assert(spec@ == before.spec());
            if !same_bytes(&chunk.block_id, &spec.block_id) || chunk.block_length != length
                || chunk.block_offset != self.payload.len() as u64 || bytes.len() == 0 || (
            spec.expected_checksum.len() > 0 && !same_bytes(
                &chunk.checksum,
                &spec.expected_checksum,
            )) || (self.checksum.len() > 0 && !same_bytes(&chunk.checksum, &self.checksum)) || (
            !first && self.serving_node_id != chunk.serving_node_id) {
                assert(before.chunk_fault(chunk@));
                self.end();
                return None;
            }
        }
        if first {
            match buffer {
                None => {
                    self.end();
                    return None;
                },
                Some(buffer) => {
                    self.payload = buffer;
                },
            }
            self.serving_node_id = chunk.serving_node_id.clone();
            self.checksum = copy_bytes(&chunk.checksum);
        }
        append_bytes(&mut self.payload, bytes);
        assert(self@ =~= before.chunk_taken(
            (ChunkView { end_of_block: false, ..chunk@ }),
            buffer is Some,
        ).0);
        if !chunk.end_of_block {
            return None;
        }
        let verified: Vec<u8> = digest(&self.payload);
        let spec = &self.work[self.index].spec;
        if self.payload.len() as u64 != length || (spec.expected_checksum.len() > 0 && !same_bytes(
            &verified,
            &spec.expected_checksum,
        )) || (self.checksum.len() > 0 && !same_bytes(&verified, &self.checksum)) {
            assert(before.block_fault(self@.checksum, self@.payload));
            self.end();
            return None;
        }
        let checksum: Vec<u8> = if self.checksum.len() == 0 {
            verified
        } else {
            copy_bytes(&self.checksum)
        };
        let block_id: Vec<u8> = copy_bytes(&spec.block_id);
        let mut payload: Vec<u8> = Vec::new();
        std::mem::swap(&mut payload, &mut self.payload);
        self.phase = PlanPhase::Beginning;
        assert(self.payload@ =~= Seq::empty());
        Some(
            PeerBlockResult {
                serving_node_id: self.serving_node_id.clone(),
                block_id,
                checksum,
                length,
                payload: Payload::new(payload),
            },
        )
    }

    fn read_on(&mut self)
        requires
            old(self)@.index <= old(self)@.work.len(),
        ensures
            final(self)@ == old(self)@.reading_on(),
    {
        if self.index == self.work.len() {
            self.stream_complete = true;
            self.end();
        } else {
            let none: Vec<u8> = Vec::new();
            assert(none@ =~= Seq::empty());
            self.checksum = none;
            self.phase = PlanPhase::Reading;
        }
    }

    /// Notes that a block was handed over to be installed, or why it could not be.
    pub fn install_begun(&mut self, error: Option<WorkerError>)
        requires
            old(self)@.wf(),
            old(self)@.phase is Beginning,
        ensures
            final(self)@.wf(),
            final(self)@ == old(self)@.begun(error),
    {
        let ghost before = self@;
        let ghost pending_before = self.pending@;
        let ghost installed_before = self.installed@;
        proof {
            lemma_begun(before, error);
        }
        let count: usize = self.work.len();
        let item = &self.work[self.index];
        let block_id: Vec<u8> = copy_bytes(&item.spec.block_id);
        let attempt: u64 = item.attempt;
        assert(before.work[before.index as int] == item@);
        self.index = self.index + 1;
        match error {
            Some(error) => {
                self.installed.push(
                    PeerImportCompletion {
                        block_id,
                        attempt,
                        failure: Some(PeerImportFailure::terminal(error)),
                    },
                );
                proof {
                    lemma_views_push(installed_before, self.installed@.last());
                }
                self.end();
            },
            None => {
                self.pending.push(PendingInstall { block_id, attempt });
                proof {
                    lemma_views_push(pending_before, self.pending@.last());
                }
                if self.pending.len() >= PENDING_INSTALLS_MAX {
                    self.phase = PlanPhase::Finishing;
                } else {
                    self.read_on();
                }
            },
        }
    }

    /// Notes what came of the oldest installation.
    pub fn install_finished(&mut self, error: Option<WorkerError>)
        requires
            old(self)@.wf(),
            old(self)@.phase is Finishing || old(self)@.phase is Draining,
        ensures
            final(self)@.wf(),
            final(self)@ == old(self)@.finished(error),
    {
        let ghost before = self@;
        let ghost installed_before = self.installed@;
        let ghost pending_before = self.pending@;
        proof {
            lemma_finished(before, error);
        }
        let went_well: bool = error.is_none();
        let oldest: PendingInstall = self.pending.remove(0);
        proof {
            assert(before.pending[0] == oldest@);
            assert(views(self.pending@) =~= before.pending.drop_first());
        }
        let failure: Option<PeerImportFailure> = match error {
            Some(error) => Some(PeerImportFailure::terminal(error)),
            None => None,
        };
        self.installed.push(
            PeerImportCompletion { block_id: oldest.block_id, attempt: oldest.attempt, failure },
        );
        proof {
            lemma_views_push(installed_before, self.installed@.last());
        }
        if self.phase == PlanPhase::Finishing && went_well {
            self.read_on();
        } else {
            self.end();
        }
    }

    /// Whether the stream did all that was asked of it.
    pub fn succeeded(&self) -> (success: bool)
        ensures
            success == (self@.stream_complete && forall|i: int|
                #![trigger self@.installed[i]]
                0 <= i < self@.installed.len() ==> self@.installed[i].failure is None),
    {
        let ghost all = self@.installed;
        if !self.stream_complete {
            return false;
        }
        let mut i: usize = 0;
        while i < self.installed.len()
            invariant
                i <= self.installed@.len(),
                all == views(self.installed@),
                forall|j: int| #![trigger all[j]] 0 <= j < i ==> all[j].failure is None,
            decreases self.installed.len() - i,
        {
            if self.installed[i].failure.is_some() {
                assert(all[i as int].failure is Some);
                return false;
            }
            i = i + 1;
        }
        true
    }
}

/// Whether a block is among those whose import has ended.
pub open spec fn has_ended(completed: Seq<ImportResultView>, block_id: Seq<u8>) -> bool {
    exists|i: int|
        #![trigger completed[i]]
        0 <= i < completed.len() && completed[i].block_id == block_id
}

/// What is left to do after some imports have ended is the work whose blocks are not among them, and
/// nothing else.
pub proof fn only_what_has_not_ended_is_left_over(
    work: Seq<(PullSpecView, u64)>,
    completed: Seq<ImportResultView>,
    item: (PullSpecView, u64),
)
    ensures
        left_over(work, completed).contains(item) <==> work.contains(item) && forall|i: int|
            #![trigger completed[i]]
            0 <= i < completed.len() ==> completed[i].block_id != item.0.block_id,
{
    let open = |item: (PullSpecView, u64)| !has_ended(completed, item.0.block_id);
    lemma_open_work(work, open, item);
    assert(open(item) <==> forall|i: int|
        #![trigger completed[i]]
        0 <= i < completed.len() ==> completed[i].block_id != item.0.block_id);
}

proof fn lemma_open_work(
    work: Seq<(PullSpecView, u64)>,
    open: spec_fn((PullSpecView, u64)) -> bool,
    item: (PullSpecView, u64),
)
    ensures
        work.filter(open).contains(item) <==> work.contains(item) && open(item),
    decreases work.len(),
{
    reveal(Seq::filter);
    if work.len() > 0 {
        let rest = work.drop_last();
        let all = work.filter(open);
        let early = rest.filter(open);
        lemma_open_work(rest, open, item);
        assert(work[work.len() - 1] == work.last());
        assert(work.contains(item) <==> rest.contains(item) || work.last() == item) by {
            if rest.contains(item) {
                let i = choose|i: int| 0 <= i < rest.len() && rest[i] == item;
                assert(work[i] == item);
            }
            if work.contains(item) && work.last() != item {
                let i = choose|i: int| 0 <= i < work.len() && work[i] == item;
                assert(rest[i] == item);
            }
        }
        if open(work.last()) {
            assert(all == early.push(work.last()));
            if early.contains(item) {
                let i = choose|i: int| 0 <= i < early.len() && early[i] == item;
                assert(all[i] == item);
            }
            assert(all[early.len() as int] == work.last());
            if all.contains(item) && work.last() != item {
                let i = choose|i: int| 0 <= i < all.len() && all[i] == item;
                assert(early[i] == item);
            }
        }
    }
}

/// The work that is left after some imports have ended.
pub open spec fn left_over(
    work: Seq<(PullSpecView, u64)>,
    completed: Seq<ImportResultView>,
) -> Seq<(PullSpecView, u64)> {
    work.filter(|item: (PullSpecView, u64)| !has_ended(completed, item.0.block_id))
}

fn is_ended(completed: &Vec<PeerImportCompletion>, block_id: &Vec<u8>) -> (found: bool)
    ensures
        found == has_ended(views(completed@), block_id@),
{
    let ghost all = views(completed@);
    let mut i: usize = 0;
    while i < completed.len()
        invariant
            i <= completed@.len(),
            all == views(completed@),
            forall|j: int| #![trigger all[j]] 0 <= j < i ==> all[j].block_id != block_id@,
        decreases completed.len() - i,
    {
        if same_bytes(&completed[i].block_id, block_id) {
            assert(all[i as int].block_id == block_id@);
            return true;
        }
        i = i + 1;
    }
    false
}

/// The work that is left after some imports have ended.
pub fn remaining_work(work: &Vec<PeerImportWork>, completed: &Vec<PeerImportCompletion>) -> (left: Vec<
    PeerImportWork,
>)
    ensures
        views(left@) == left_over(views(work@), views(completed@)),
{
    let ghost all = views(work@);
    let ghost ended = views(completed@);
    let mut left: Vec<PeerImportWork> = Vec::new();
    let mut i: usize = 0;
    proof {
        reveal(Seq::filter);
        assert(all.take(0) =~= Seq::empty());
        assert(views(left@) =~= left_over(all.take(0), ended));
    }
    while i < work.len()
        invariant
            i <= work@.len(),
            all == views(work@),
            ended == views(completed@),
            views(left@) == left_over(all.take(i as int), ended),
        decreases work.len() - i,
    {
        let ghost so_far = left@;
        proof {
            reveal(Seq::filter);
            lemma_views_take(work@, i as int);
        }
        if !is_ended(completed, &work[i].spec.block_id) {
            left.push(
                PeerImportWork { spec: work[i].spec.duplicate(), attempt: work[i].attempt },
            );
            proof {
                lemma_views_push(so_far, left@.last());
            }
        }
        i = i + 1;
    }
    assert(all.take(i as int) =~= all);
    left
}

/// Takes the answer to one of the requests for blocks that a read waits for. An answer to a request
/// that it does not wait for is not looked at.
pub fn note_imported(
    imported: &mut Table<Vec<u8>, Payload>,
    required_blocks: &Vec<Vec<u8>>,
    block_id: Vec<u8>,
    answer: Result<Option<Payload>, PeerImportFailure>,
) -> (noted: Result<(), PeerImportFailure>)
    ensures
        if !views(required_blocks@).contains(block_id@) {
            final(imported)@ == old(imported)@ && noted is Ok
        } else {
            match answer {
                Ok(Some(bytes)) => final(imported)@ == old(imported)@.insert(block_id@, bytes@)
                    && noted is Ok,
                Ok(None) => final(imported)@ == old(imported)@ && noted is Ok,
                Err(failure) => final(imported)@ == old(imported)@ && noted == Err::<
                    (),
                    PeerImportFailure,
                >(failure),
            }
        },
{
    if !crate::retirement::holds_name(required_blocks, &block_id) {
        return Ok(());
    }
    match answer {
        Ok(Some(bytes)) => {
            imported.insert(block_id, bytes);
            Ok(())
        },
        Ok(None) => Ok(()),
        Err(failure) => Err(failure),
    }
}

} // verus!
