//! Blocks on their way from other nodes: which are being imported, who waits for them, and which
//! imports have failed for the reads that were under way.
use crate::bytes::{copy_bytes, same_bytes};
#[allow(unused_imports)]
use crate::bytes::{lemma_views_push, lemma_views_take, views};
use crate::error::WorkerError;
#[allow(unused_imports)]
use crate::table::{
    lemma_total_empty, lemma_total_insert, lemma_total_remove, lemma_total_replace, total,
};
use crate::table::Table;
use vstd::prelude::*;

verus! {

/// The most blocks of one plan, and the most imports and failures that are kept.
pub const PEER_PULL_PLAN_BLOCKS_MAX: usize = 1024;

/// The most requests that wait in a queue of the node.
pub const NODE_MAILBOX_CAPACITY: usize = 256;

/// A node that a block can be pulled from.
#[derive(Debug, PartialEq, Eq)]
pub struct PeerPullSource {
    pub node_id: u64,
    pub node_epoch: u64,
    pub endpoint: String,
}

/// A node that a block can be pulled from, as a value.
#[verifier::ext_equal]
pub struct SourceView {
    pub node_id: u64,
    pub node_epoch: u64,
    pub endpoint: Seq<char>,
}

impl View for PeerPullSource {
    type V = SourceView;

    open spec fn view(&self) -> SourceView {
        SourceView {
            node_id: self.node_id,
            node_epoch: self.node_epoch,
            endpoint: self.endpoint@,
        }
    }
}

/// A block that is missing, and where it can be had.
#[derive(Debug, PartialEq, Eq)]
pub struct PeerPullSpec {
    pub sources: Vec<PeerPullSource>,
    pub block_id: Vec<u8>,
    pub expected_checksum: Vec<u8>,
    pub expected_length: u64,
}

/// A block that is missing, and where it can be had, as a value.
#[verifier::ext_equal]
pub struct PullSpecView {
    pub sources: Seq<SourceView>,
    pub block_id: Seq<u8>,
    pub expected_checksum: Seq<u8>,
    pub expected_length: u64,
}

impl View for PeerPullSpec {
    type V = PullSpecView;

    open spec fn view(&self) -> PullSpecView {
        PullSpecView {
            sources: views(self.sources@),
            block_id: self.block_id@,
            expected_checksum: self.expected_checksum@,
            expected_length: self.expected_length,
        }
    }
}

/// A missing block, and the attempt that is to bring it.
#[derive(Debug, PartialEq, Eq)]
pub struct PeerImportWork {
    pub spec: PeerPullSpec,
    pub attempt: u64,
}

impl View for PeerImportWork {
    type V = (PullSpecView, u64);

    open spec fn view(&self) -> (PullSpecView, u64) {
        (self.spec@, self.attempt)
    }
}

/// Why an import failed. After a location failure the block may be looked for elsewhere.
#[derive(Debug, PartialEq, Eq)]
pub struct PeerImportFailure {
    pub error: WorkerError,
    pub location_failure: bool,
}

impl View for PeerImportFailure {
    type V = PeerImportFailure;

    open spec fn view(&self) -> PeerImportFailure {
        *self
    }
}

impl PeerImportFailure {
    /// A failure after which nothing else is tried.
    pub fn terminal(error: WorkerError) -> (failure: Self)
        ensures
            failure == (PeerImportFailure { error, location_failure: false }),
    {
        PeerImportFailure { error, location_failure: false }
    }

    /// A failure of the places where the block was looked for.
    pub fn of_location(error: WorkerError) -> (failure: Self)
        ensures
            failure == (PeerImportFailure { error, location_failure: true }),
    {
        PeerImportFailure { error, location_failure: true }
    }

    /// An equal failure.
    pub fn duplicate(&self) -> (copy: Self)
        ensures
            copy == *self,
    {
        PeerImportFailure {
            error: self.error.duplicate(),
            location_failure: self.location_failure,
        }
    }
}

impl PeerPullSource {
    /// An equal source.
    pub fn duplicate(&self) -> (copy: Self)
        ensures
            copy@ == self@,
    {
        PeerPullSource {
            node_id: self.node_id,
            node_epoch: self.node_epoch,
            endpoint: self.endpoint.clone(),
        }
    }

    /// Whether two sources are the same.
    pub fn same(&self, other: &Self) -> (same: bool)
        ensures
            same == (self@ == other@),
    {
        self.node_id == other.node_id && self.node_epoch == other.node_epoch && self.endpoint
            == other.endpoint
    }
}

impl PeerPullSpec {
    /// A block that can be had from one place, whose node is not known.
    pub fn single_source(
        endpoint: String,
        block_id: Vec<u8>,
        expected_checksum: Vec<u8>,
        expected_length: u64,
    ) -> (spec: Self)
        ensures
            spec@ == (PullSpecView {
                sources: seq![SourceView { node_id: 0, node_epoch: 0, endpoint: endpoint@ }],
                block_id: block_id@,
                expected_checksum: expected_checksum@,
                expected_length,
            }),
    {
        let mut sources: Vec<PeerPullSource> = Vec::new();
        sources.push(PeerPullSource { node_id: 0, node_epoch: 0, endpoint });
        assert(views(sources@) =~= seq![
            SourceView { node_id: 0, node_epoch: 0, endpoint: endpoint@ },
        ]);
        PeerPullSpec { sources, block_id, expected_checksum, expected_length }
    }

    /// An equal spec.
    pub fn duplicate(&self) -> (copy: Self)
        ensures
            copy@ == self@,
    {
        let mut sources: Vec<PeerPullSource> = Vec::with_capacity(self.sources.len());
        let mut i: usize = 0;
        while i < self.sources.len()
            invariant
                i <= self.sources@.len(),
                views(sources@) =~= views(self.sources@).take(i as int),
            decreases self.sources.len() - i,
        {
            let ghost so_far = sources@;
            sources.push(self.sources[i].duplicate());
            proof {
                lemma_views_push(so_far, sources@.last());
                lemma_views_take(self.sources@, i as int);
            }
            i = i + 1;
        }
        assert(views(sources@) =~= views(self.sources@));
        PeerPullSpec {
            sources,
            block_id: copy_bytes(&self.block_id),
            expected_checksum: copy_bytes(&self.expected_checksum),
            expected_length: self.expected_length,
        }
    }
}

/// Whether a source can serve a missing block.
pub open spec fn serves(spec: PullSpecView, source: SourceView) -> bool {
    exists|i: int| #![trigger spec.sources[i]] 0 <= i < spec.sources.len() && spec.sources[i] == source
}

/// Whether a source can serve every block of the work.
pub open spec fn serves_all(work: Seq<(PullSpecView, u64)>, source: SourceView) -> bool {
    forall|i: int| #![trigger work[i]] 0 <= i < work.len() ==> serves(work[i].0, source)
}

/// Whether a source can serve a missing block.
fn can_serve(spec: &PeerPullSpec, source: &PeerPullSource) -> (found: bool)
    ensures
        found == serves(spec@, source@),
{
    let ghost sources = spec@.sources;
    let mut i: usize = 0;
    while i < spec.sources.len()
        invariant
            i <= spec.sources@.len(),
            sources == views(spec.sources@),
            forall|j: int| #![trigger sources[j]] 0 <= j < i ==> sources[j] != source@,
        decreases spec.sources.len() - i,
    {
        if spec.sources[i].same(source) {
            assert(spec@.sources[i as int] == source@);
            return true;
        }
        i = i + 1;
    }
    false
}

/// The source as a value.
pub open spec fn source_of(source: Option<PeerPullSource>) -> Option<SourceView> {
    match source {
        Some(source) => Some(source@),
        None => None,
    }
}

/// Whether a source is the first of the first block's that can serve every block of the work, or
/// there is none.
pub open spec fn is_common(work: Seq<(PullSpecView, u64)>, common: Option<SourceView>) -> bool {
    match common {
        Some(source) => work.len() > 0 && exists|i: int|
            #![trigger work[0].0.sources[i]]
            0 <= i < work[0].0.sources.len() && source == work[0].0.sources[i] && serves_all(
                work,
                source,
            ) && forall|j: int|
                #![trigger work[0].0.sources[j]]
                0 <= j < i ==> !serves_all(work, work[0].0.sources[j]),
        None => work.len() == 0 || forall|j: int|
            #![trigger work[0].0.sources[j]]
            0 <= j < work[0].0.sources.len() ==> !serves_all(work, work[0].0.sources[j]),
    }
}

/// The source that can bring the blocks of the work in one stream. One block alone is pulled
/// without a stream.
pub fn stream_source(work: &Vec<PeerImportWork>) -> (source: Option<PeerPullSource>)
    ensures
        if work@.len() == 1 {
            source is None
        } else {
            is_common(views(work@), source_of(source))
        },
{
    if work.len() == 1 {
        None
    } else {
        common_peer_source(work)
    }
}

/// A source that some imports have in common has every block of theirs. Where none is found, every source
/// lacks a block.
pub proof fn a_common_source_has_every_block(
    work: Seq<(PullSpecView, u64)>,
    common: Option<SourceView>,
    at: int,
    source: SourceView,
)
    requires
        is_common(work, common),
    ensures
        common is Some && 0 <= at < work.len() ==> work[at].0.sources.contains(common->0),
        common is None && work.len() > 0 ==> exists|i: int|
            #![trigger work[i]]
            0 <= i < work.len() && !work[i].0.sources.contains(source),
        common is Some ==> work.len() > 0,
{
    if common is Some && 0 <= at < work.len() {
        assert(serves(work[at].0, common->0));
    }
    if common is None && work.len() > 0 {
        if work[0].0.sources.contains(source) {
            let j = choose|j: int|
                #![trigger work[0].0.sources[j]]
                0 <= j < work[0].0.sources.len() && work[0].0.sources[j] == source;
            assert(!serves_all(work, work[0].0.sources[j]));
            let i = choose|i: int| #![trigger work[i]] 0 <= i < work.len() && !serves(
                work[i].0,
                source,
            );
            if work[i].0.sources.contains(source) {
                let k = choose|k: int|
                    #![trigger work[i].0.sources[k]]
                    0 <= k < work[i].0.sources.len() && work[i].0.sources[k] == source;
                assert(serves(work[i].0, source));
            }
        } else {
            assert(!work[0].0.sources.contains(source));
        }
    }
}

/// The first source of the first block that can serve every block of the work.
pub fn common_peer_source(work: &Vec<PeerImportWork>) -> (common: Option<PeerPullSource>)
    ensures
        is_common(views(work@), source_of(common)),
{
    if work.len() == 0 {
        return None;
    }
    let ghost all = views(work@);
    let first = &work[0].spec;
    let mut i: usize = 0;
    while i < first.sources.len()
        invariant
            work@.len() > 0,
            all == views(work@),
            *first == work@[0].spec,
            i <= first.sources@.len(),
            forall|j: int|
                #![trigger all[0].0.sources[j]]
                0 <= j < i ==> !serves_all(all, all[0].0.sources[j]),
        decreases first.sources.len() - i,
    {
        let candidate = &first.sources[i];
        let mut everywhere: bool = true;
        let mut k: usize = 0;
        while k < work.len() && everywhere
            invariant
                all == views(work@),
                k <= work@.len(),
                everywhere ==> forall|j: int|
                    #![trigger all[j]]
                    0 <= j < k ==> serves(all[j].0, candidate@),
                !everywhere ==> !serves_all(all, candidate@),
            decreases work.len() - k,
        {
            if !can_serve(&work[k].spec, candidate) {
                everywhere = false;
                assert(!serves(all[k as int].0, candidate@));
            }
            k = k + 1;
        }
        assert(all[0] == work@[0]@);
        assert(candidate@ == all[0].0.sources[i as int]);
        if everywhere {
            return Some(candidate.duplicate());
        }
        i = i + 1;
    }
    None
}

/// An import that is under way.
#[derive(Debug, PartialEq, Eq)]
pub struct PeerImportFlight {
    pub attempt: u64,
    /// The read that started it. It keeps the block from being retired.
    pub read_scope_id: u64,
    pub expected_length: u64,
    pub expected_checksum: Vec<u8>,
    pub task_id: Option<u64>,
    pub waiters: Vec<u64>,
}

/// An import that is under way, as a value.
#[verifier::ext_equal]
pub struct FlightView {
    pub attempt: u64,
    pub read_scope_id: u64,
    pub expected_length: u64,
    pub expected_checksum: Seq<u8>,
    pub task_id: Option<u64>,
    pub waiters: Seq<u64>,
}

impl View for PeerImportFlight {
    type V = FlightView;

    open spec fn view(&self) -> FlightView {
        FlightView {
            attempt: self.attempt,
            read_scope_id: self.read_scope_id,
            expected_length: self.expected_length,
            expected_checksum: self.expected_checksum@,
            task_id: self.task_id,
            waiters: self.waiters@,
        }
    }
}

/// A failed import, and the last of the reads that must see the failure.
#[derive(Debug, PartialEq, Eq)]
pub struct PeerImportFailureFence {
    pub cutoff_scope: u64,
    pub failure: PeerImportFailure,
}

impl View for PeerImportFailureFence {
    type V = PeerImportFailureFence;

    open spec fn view(&self) -> PeerImportFailureFence {
        *self
    }
}

/// The imports.
pub struct Imports {
    pub flights: Table<Vec<u8>, PeerImportFlight>,
    pub failures: Table<Vec<u8>, PeerImportFailureFence>,
    pub next_attempt: u64,
    pub bytes: u64,
    pub byte_limit: u64,
}

/// The imports, as a value.
#[verifier::ext_equal]
pub struct ImportsView {
    pub flights: Map<Seq<u8>, FlightView>,
    pub failures: Map<Seq<u8>, PeerImportFailureFence>,
    pub next_attempt: u64,
    pub bytes: u64,
    pub byte_limit: u64,
}

impl View for Imports {
    type V = ImportsView;

    open spec fn view(&self) -> ImportsView {
        ImportsView {
            flights: self.flights@,
            failures: self.failures@,
            next_attempt: self.next_attempt,
            bytes: self.bytes,
            byte_limit: self.byte_limit,
        }
    }
}

/// What came of asking for a block.
#[derive(Debug, PartialEq, Eq)]
pub enum ImportStart {
    /// Nobody waits for the answer any more.
    Unwanted,
    /// The request failed.
    Refused(PeerImportFailure),
    /// The block is here already.
    Present,
    /// The request waits for an import that is under way.
    Joined,
    /// The request waits for a new import, which is to be carried out.
    Started(u64),
}

/// The bytes that an import will bring, counted.
pub open spec fn flight_weight() -> spec_fn(FlightView) -> nat {
    |flight: FlightView| flight.expected_length as nat
}

/// Those of some waiters that still wait.
pub open spec fn still_waiting(waiters: Seq<u64>, closed: Set<u64>) -> Seq<u64> {
    waiters.filter(|waiter: u64| !closed.contains(waiter))
}

/// A request that failed for good.
pub open spec fn refused(error: WorkerError) -> ImportStart {
    ImportStart::Refused(PeerImportFailure { error, location_failure: false })
}

impl ImportsView {
    /// What is true of the imports at any time.
    pub open spec fn wf(self) -> bool {
        &&& self.flights.dom().finite()
        &&& self.failures.dom().finite()
        &&& self.bytes == total(self.flights, flight_weight())
        &&& self.bytes <= self.byte_limit
        &&& self.flights.len() + self.failures.len() <= PEER_PULL_PLAN_BLOCKS_MAX
        &&& forall|id: Seq<u8>| #[trigger]
            self.flights.contains_key(id) ==> self.flights[id].attempt < self.next_attempt
    }

    /// The failure that a read must see for a block.
    pub open spec fn failure(self, block_id: Seq<u8>, read_scope_id: u64) -> Option<
        PeerImportFailure,
    > {
        if self.failures.contains_key(block_id) && read_scope_id
            <= self.failures[block_id].cutoff_scope {
            Some(self.failures[block_id].failure)
        } else {
            None
        }
    }

    /// Whether an attempt is the one that is under way for a block.
    pub open spec fn current(self, block_id: Seq<u8>, read_scope_id: u64, attempt: u64) -> bool {
        self.flights.contains_key(block_id) && self.flights[block_id].attempt == attempt
            && self.flights[block_id].read_scope_id == read_scope_id
    }

    /// What asking for a block does, and what comes of it. `admitted` says whether the read may
    /// still ask for the block, and `local` is the length and the digest of the block if it is
    /// here.
    pub open spec fn asked(
        self,
        read_scope_id: u64,
        spec: PullSpecView,
        waiter: u64,
        closed: Set<u64>,
        admitted: bool,
        local: Option<(u64, Seq<u8>)>,
    ) -> (ImportsView, ImportStart) {
        if closed.contains(waiter) {
            (self, ImportStart::Unwanted)
        } else if !admitted {
            (self, refused(WorkerError::NotFound))
        } else if self.failure(spec.block_id, read_scope_id) is Some {
            (self, ImportStart::Refused(self.failure(spec.block_id, read_scope_id)->0))
        } else if self.flights.contains_key(spec.block_id) {
            let flight = self.flights[spec.block_id];
            let waiting = still_waiting(flight.waiters, closed);
            if flight.expected_length != spec.expected_length || flight.expected_checksum
                != spec.expected_checksum {
                (self, refused(WorkerError::Conflict))
            } else if waiting.len() >= NODE_MAILBOX_CAPACITY {
                (
                    self.with_waiters(spec.block_id, waiting),
                    refused(WorkerError::ResourceExhausted),
                )
            } else {
                (self.with_waiters(spec.block_id, waiting.push(waiter)), ImportStart::Joined)
            }
        } else if local is Some {
            let (length, digest) = local->0;
            if length == spec.expected_length && (spec.expected_checksum.len() == 0 || digest
                == spec.expected_checksum) {
                (self, ImportStart::Present)
            } else {
                (self, refused(WorkerError::Conflict))
            }
        } else if self.flights.len() + self.failures.len() >= PEER_PULL_PLAN_BLOCKS_MAX
            || self.bytes + spec.expected_length > self.byte_limit || self.next_attempt
            == u64::MAX {
            (self, refused(WorkerError::ResourceExhausted))
        } else {
            (
                ImportsView {
                    next_attempt: (self.next_attempt + 1) as u64,
                    bytes: (self.bytes + spec.expected_length) as u64,
                    flights: self.flights.insert(
                        spec.block_id,
                        FlightView {
                            attempt: self.next_attempt,
                            read_scope_id,
                            expected_length: spec.expected_length,
                            expected_checksum: spec.expected_checksum,
                            task_id: None,
                            waiters: seq![waiter],
                        },
                    ),
                    ..self
                },
                ImportStart::Started(self.next_attempt),
            )
        }
    }

    /// An import with other waiters.
    pub open spec fn with_waiters(self, block_id: Seq<u8>, waiters: Seq<u64>) -> ImportsView {
        ImportsView {
            flights: self.flights.insert(
                block_id,
                FlightView { waiters, ..self.flights[block_id] },
            ),
            ..self
        }
    }

    /// Whether an attempt is under way for a block.
    pub open spec fn attempting(self, block_id: Seq<u8>, attempt: u64) -> bool {
        self.flights.contains_key(block_id) && self.flights[block_id].attempt == attempt
    }

    /// The imports after an attempt ended. A failure that no other location can mend is kept for
    /// the reads that were under way.
    pub open spec fn ended(
        self,
        block_id: Seq<u8>,
        attempt: u64,
        failure: Option<PeerImportFailure>,
        cutoff_scope: u64,
    ) -> ImportsView {
        if !self.attempting(block_id, attempt) {
            self
        } else {
            ImportsView {
                bytes: (self.bytes - self.flights[block_id].expected_length) as u64,
                flights: self.flights.remove(block_id),
                failures: match failure {
                    Some(failure) => if failure.location_failure {
                        self.failures
                    } else {
                        self.failures.insert(
                            block_id,
                            PeerImportFailureFence { cutoff_scope, failure },
                        )
                    },
                    None => self.failures,
                },
                ..self
            }
        }
    }

    /// The imports with only the failures that some read under way must still see.
    pub open spec fn pruned(self, active_scopes: Set<u64>) -> ImportsView {
        ImportsView {
            failures: self.failures.restrict(
                Set::new(
                    |id: Seq<u8>|
                        self.failures.contains_key(id) && exists|scope: u64| #[trigger]
                            active_scopes.contains(scope) && scope
                                <= self.failures[id].cutoff_scope,
                ),
            ),
            ..self
        }
    }

    /// Whether no import was started by a read up to some scope.
    pub open spec fn drained(self, cutoff: u64) -> bool {
        forall|id: Seq<u8>| #[trigger]
            self.flights.contains_key(id) ==> self.flights[id].read_scope_id > cutoff
    }
}

/// An attempt that was overtaken by another can neither install a block nor end the other.
pub proof fn an_overtaken_attempt_changes_nothing(
    imports: ImportsView,
    block_id: Seq<u8>,
    attempt: u64,
    failure: Option<PeerImportFailure>,
    cutoff_scope: u64,
    read_scope_id: u64,
)
    requires
        imports.flights.contains_key(block_id),
        imports.flights[block_id].attempt != attempt,
    ensures
        imports.ended(block_id, attempt, failure, cutoff_scope) == imports,
        !imports.current(block_id, read_scope_id, attempt),
{
}

/// A request for a block begins an import if it still wants the block, its read may ask for it, no
/// failure was noted for the read, the block is neither here nor on its way, and there is room. It
/// joins an import of a block of the same length and checksum, and then waits with everybody who
/// still waits for it. A block that is here is there for it if it is of the right length and
/// checksum. Everything else is refused, and changes no import.
pub proof fn a_request_begins_joins_or_is_refused(
    imports: ImportsView,
    read_scope_id: u64,
    spec: PullSpecView,
    waiter: u64,
    closed: Set<u64>,
    admitted: bool,
    local: Option<(u64, Seq<u8>)>,
    other: Seq<u8>,
    earlier: u64,
)
    requires
        imports.wf(),
    ensures
        ({
            let (next, start) = imports.asked(
                read_scope_id,
                spec,
                waiter,
                closed,
                admitted,
                local,
            );
            let block_id = spec.block_id;
            let failed = imports.failures.contains_key(block_id) && read_scope_id
                <= imports.failures[block_id].cutoff_scope;
            let proper = !closed.contains(waiter) && admitted && !failed;
            let flying = imports.flights.contains_key(block_id);
            let alike = imports.flights[block_id].expected_length == spec.expected_length
                && imports.flights[block_id].expected_checksum == spec.expected_checksum;
            &&& closed.contains(waiter) <==> start is Unwanted
            &&& start is Started <==> proper && !flying && local is None && imports.flights.len()
                + imports.failures.len() < 1024 && imports.bytes
                + spec.expected_length <= imports.byte_limit && imports.next_attempt < u64::MAX
            &&& start matches ImportStart::Started(attempt) ==> {
                let flight = next.flights[block_id];
                &&& attempt == imports.next_attempt
                &&& next.next_attempt == imports.next_attempt + 1
                &&& next.bytes == imports.bytes + spec.expected_length
                &&& next.flights.contains_key(block_id)
                &&& flight.attempt == attempt
                &&& flight.read_scope_id == read_scope_id
                &&& flight.expected_length == spec.expected_length
                &&& flight.expected_checksum == spec.expected_checksum
                &&& flight.task_id is None
                &&& flight.waiters == seq![waiter]
            }
            &&& start is Joined ==> proper && flying && alike && next.flights.contains_key(
                block_id,
            ) && next.flights[block_id].waiters.contains(waiter) && next.flights[block_id].attempt
                == imports.flights[block_id].attempt && next.flights[block_id].task_id
                == imports.flights[block_id].task_id
            &&& proper && flying && alike && !(start is Joined)
                ==> imports.flights[block_id].waiters.len() >= 256
            &&& start is Present <==> proper && !flying && (local matches Some((length, digest))
                && length == spec.expected_length && (spec.expected_checksum.len() == 0 || digest
                == spec.expected_checksum))
            &&& !closed.contains(waiter) && admitted && failed ==> start == ImportStart::Refused(
                imports.failures[block_id].failure,
            )
            &&& start is Present || start is Unwanted ==> next == imports
            &&& flying && imports.flights[block_id].waiters.contains(earlier) && !closed.contains(
                earlier,
            ) ==> next.flights.contains_key(block_id) && next.flights[block_id].waiters.contains(
                earlier,
            )
            &&& other != block_id ==> next.flights.contains_key(other)
                == imports.flights.contains_key(other) && next.flights[other]
                == imports.flights[other]
            &&& next.failures == imports.failures
            &&& !(start is Started) ==> next.bytes == imports.bytes && next.next_attempt
                == imports.next_attempt
        }),
{
    let (next, start) = imports.asked(read_scope_id, spec, waiter, closed, admitted, local);
    if imports.flights.contains_key(spec.block_id) {
        let flight = imports.flights[spec.block_id];
        let waiting = still_waiting(flight.waiters, closed);
        let open = |waiter: u64| !closed.contains(waiter);
        assert(waiting == flight.waiters.filter(open));
        lemma_filter_is_shorter(flight.waiters, open);
        if flight.waiters.contains(earlier) && !closed.contains(earlier) {
            lemma_filter_keeps(flight.waiters, open, earlier);
            let at = choose|at: int| 0 <= at < waiting.len() && waiting[at] == earlier;
            assert(waiting.push(waiter)[at] == earlier);
        }
        assert(waiting.push(waiter)[waiting.len() as int] == waiter);
    }
}

proof fn lemma_filter_is_shorter(waiters: Seq<u64>, open: spec_fn(u64) -> bool)
    ensures
        waiters.filter(open).len() <= waiters.len(),
    decreases waiters.len(),
{
    reveal(Seq::filter);
    if waiters.len() > 0 {
        lemma_filter_is_shorter(waiters.drop_last(), open);
    }
}

proof fn lemma_filter_keeps(waiters: Seq<u64>, open: spec_fn(u64) -> bool, waiter: u64)
    requires
        waiters.contains(waiter),
        open(waiter),
    ensures
        waiters.filter(open).contains(waiter),
    decreases waiters.len(),
{
    reveal(Seq::filter);
    let rest = waiters.drop_last();
    if waiters.last() == waiter {
        assert(waiters.filter(open)[rest.filter(open).len() as int] == waiter);
    } else {
        let at = choose|at: int| 0 <= at < waiters.len() && waiters[at] == waiter;
        assert(rest[at] == waiter);
        lemma_filter_keeps(rest, open, waiter);
        let found = choose|found: int|
            0 <= found < rest.filter(open).len() && rest.filter(open)[found] == waiter;
        assert(waiters.filter(open)[found] == waiter);
    }
}

/// The end of an import takes its block out of those on their way and gives its bytes back. A failure
/// is noted for the reads that had begun, unless another location may mend it; it is forgotten once
/// none of these reads is under way. No other import and no other failure is touched.
pub proof fn an_ended_import_gives_its_room_back(
    imports: ImportsView,
    block_id: Seq<u8>,
    attempt: u64,
    failure: Option<PeerImportFailure>,
    cutoff_scope: u64,
    active_scopes: Set<u64>,
    other: Seq<u8>,
    scope: u64,
)
    requires
        imports.wf(),
        imports.flights.contains_key(block_id),
        imports.flights[block_id].attempt == attempt,
    ensures
        ({
            let next = imports.ended(block_id, attempt, failure, cutoff_scope);
            let lasting = failure is Some && !failure->0.location_failure;
            &&& !next.flights.contains_key(block_id)
            &&& next.bytes == imports.bytes - imports.flights[block_id].expected_length
            &&& next.next_attempt == imports.next_attempt
            &&& lasting ==> next.failure(block_id, scope) == if scope <= cutoff_scope {
                failure
            } else {
                None
            }
            &&& !lasting ==> next.failures == imports.failures
            &&& other != block_id ==> next.flights.contains_key(other)
                == imports.flights.contains_key(other) && next.flights[other]
                == imports.flights[other] && next.failure(other, scope) == imports.failure(
                other,
                scope,
            )
        }),
        ({
            let next = imports.pruned(active_scopes);
            &&& next.flights == imports.flights
            &&& next.bytes == imports.bytes
            &&& active_scopes.contains(scope) ==> next.failure(other, scope) == imports.failure(
                other,
                scope,
            )
            &&& next.failures.contains_key(other) ==> imports.failures.contains_key(other)
                && next.failures[other] == imports.failures[other] && exists|reading: u64| #[trigger]
                active_scopes.contains(reading) && reading <= imports.failures[other].cutoff_scope
        }),
{
    crate::table::lemma_total_remove(imports.flights, flight_weight(), block_id);
}

/// Two requests for the same block share one import.
pub proof fn requests_for_a_block_share_one_import(
    imports: ImportsView,
    read_scope_id: u64,
    spec: PullSpecView,
    waiter: u64,
    closed: Set<u64>,
    admitted: bool,
    local: Option<(u64, Seq<u8>)>,
)
    requires
        imports.flights.contains_key(spec.block_id),
    ensures
        !(imports.asked(read_scope_id, spec, waiter, closed, admitted, local).1 is Started),
        imports.asked(read_scope_id, spec, waiter, closed, admitted, local).0.bytes
            == imports.bytes,
{
}

impl Imports {
    /// No imports.
    pub fn new(byte_limit: u64) -> (imports: Self)
        ensures
            imports@.wf(),
            imports@ == (ImportsView {
                flights: Map::empty(),
                failures: Map::empty(),
                next_attempt: 1,
                bytes: 0,
                byte_limit,
            }),
    {
        proof {
            lemma_total_empty::<Seq<u8>, FlightView>(flight_weight());
            assert(Map::<Seq<u8>, FlightView>::empty().dom() =~= Set::empty());
            assert(Map::<Seq<u8>, PeerImportFailureFence>::empty().dom() =~= Set::empty());
        }
        Imports {
            flights: Table::new(),
            failures: Table::new(),
            next_attempt: 1,
            bytes: 0,
            byte_limit,
        }
    }

    /// The failure that a read must see for a block.
    pub fn peer_import_failure(&self, block_id: &Vec<u8>, read_scope_id: u64) -> (failure: Option<
        PeerImportFailure,
    >)
        ensures
            failure == self@.failure(block_id@, read_scope_id),
    {
        match self.failures.get(block_id) {
            None => None,
            Some(fence) => if read_scope_id <= fence.cutoff_scope {
                Some(fence.failure.duplicate())
            } else {
                None
            },
        }
    }

    /// Fails for an attempt that is not the one under way for a block.
    pub fn validate_peer_import_attempt(
        &self,
        block_id: &Vec<u8>,
        read_scope_id: u64,
        attempt: u64,
    ) -> (valid: Result<(), WorkerError>)
        ensures
            match valid {
                Ok(_) => self@.current(block_id@, read_scope_id, attempt),
                Err(error) => error is Conflict && !self@.current(
                    block_id@,
                    read_scope_id,
                    attempt,
                ),
            },
    {
        match self.flights.get(block_id) {
            Some(flight) => if flight.attempt == attempt && flight.read_scope_id == read_scope_id {
                Ok(())
            } else {
                Err(WorkerError::Conflict)
            },
            None => Err(WorkerError::Conflict),
        }
    }

    /// Asks for a block. Requests for the same block share one import. `admitted` says whether
    /// the read may still ask for the block, and `local` is the length and the digest of the
    /// block if it is here.
    pub fn begin(
        &mut self,
        read_scope_id: u64,
        spec: &PeerPullSpec,
        waiter: u64,
        closed: &crate::table::KeySet<u64>,
        admitted: bool,
        local: Option<(u64, &Vec<u8>)>,
    ) -> (start: ImportStart)
        requires
            old(self)@.wf(),
        ensures
            final(self)@.wf(),
            (final(self)@, start) == old(self)@.asked(
                read_scope_id,
                spec@,
                waiter,
                closed@,
                admitted,
                (match local {
                    Some((length, digest)) => Some((length, digest@)),
                    None => None,
                }),
            ),
    {
        let ghost before = self@;
        if closed.contains(&waiter) {
            return ImportStart::Unwanted;
        }
        if !admitted {
            return ImportStart::Refused(PeerImportFailure::terminal(WorkerError::NotFound));
        }
        match self.peer_import_failure(&spec.block_id, read_scope_id) {
            Some(failure) => return ImportStart::Refused(failure),
            None => {},
        }
        match self.flights.get(&spec.block_id) {
            None => {},
            Some(flight) => {
                if flight.expected_length != spec.expected_length || !same_bytes(
                    &flight.expected_checksum,
                    &spec.expected_checksum,
                ) {
                    return ImportStart::Refused(PeerImportFailure::terminal(WorkerError::Conflict));
                }
                return self.join(&spec.block_id, waiter, closed);
            },
        }
        match local {
            None => {},
            Some((length, digest)) => {
                return if length == spec.expected_length && (spec.expected_checksum.len() == 0
                    || same_bytes(digest, &spec.expected_checksum)) {
                    ImportStart::Present
                } else {
                    ImportStart::Refused(PeerImportFailure::terminal(WorkerError::Conflict))
                };
            },
        }
        let charged: u64 = match self.bytes.checked_add(spec.expected_length) {
            Some(charged) => charged,
            None => return ImportStart::Refused(
                PeerImportFailure::terminal(WorkerError::ResourceExhausted),
            ),
        };
        let flying: usize = self.flights.len();
        let failed: usize = self.failures.len();
        if flying + failed >= PEER_PULL_PLAN_BLOCKS_MAX || charged > self.byte_limit
            || self.next_attempt == u64::MAX {
            return ImportStart::Refused(
                PeerImportFailure::terminal(WorkerError::ResourceExhausted),
            );
        }
        let attempt: u64 = self.next_attempt;
        let mut waiters: Vec<u64> = Vec::new();
        waiters.push(waiter);
        let flight = PeerImportFlight {
            attempt,
            read_scope_id,
            expected_length: spec.expected_length,
            expected_checksum: copy_bytes(&spec.expected_checksum),
            task_id: None,
            waiters,
        };
        proof {
            assert(flight.waiters@ =~= seq![waiter]);
            lemma_total_insert(before.flights, flight_weight(), spec.block_id@, flight@);
        }
        self.next_attempt = attempt + 1;
        self.bytes = charged;
        self.flights.insert(copy_bytes(&spec.block_id), flight);
        proof {
            assert(self@.flights.dom() =~= before.flights.dom().insert(spec.block_id@));
        }
        ImportStart::Started(attempt)
    }

    fn join(&mut self, block_id: &Vec<u8>, waiter: u64, closed: &crate::table::KeySet<u64>) -> (start:
        ImportStart)
        requires
            old(self)@.wf(),
            old(self)@.flights.contains_key(block_id@),
        ensures
            final(self)@.wf(),
            ({
                let waiting = still_waiting(old(self)@.flights[block_id@].waiters, closed@);
                if waiting.len() >= NODE_MAILBOX_CAPACITY {
                    final(self)@ == old(self)@.with_waiters(block_id@, waiting) && start == refused(
                        WorkerError::ResourceExhausted,
                    )
                } else {
                    final(self)@ == old(self)@.with_waiters(block_id@, waiting.push(waiter))
                        && start is Joined
                }
            }),
    {
        let ghost before = self@;
        match self.flights.remove(block_id) {
            None => ImportStart::Unwanted,
            Some(flight) => {
                let ghost initial = flight@;
                let mut kept: Vec<u64> = Vec::new();
                let mut i: usize = 0;
                proof {
                    reveal(Seq::filter);
                    assert(flight.waiters@.take(0).filter(
                        |waiter: u64| !closed@.contains(waiter),
                    ) =~= Seq::empty());
                }
                while i < flight.waiters.len()
                    invariant
                        i <= flight.waiters@.len(),
                        kept@ == still_waiting(flight.waiters@.take(i as int), closed@),
                    decreases flight.waiters.len() - i,
                {
                    proof {
                        reveal(Seq::filter);
                        assert(flight.waiters@.take(i + 1).drop_last() =~= flight.waiters@.take(
                            i as int,
                        ));
                    }
                    if !closed.contains(&flight.waiters[i]) {
                        kept.push(flight.waiters[i]);
                    }
                    i = i + 1;
                }
                assert(flight.waiters@.take(i as int) =~= flight.waiters@);
                let ghost waiting = kept@;
                let full: bool = kept.len() >= NODE_MAILBOX_CAPACITY;
                if !full {
                    kept.push(waiter);
                }
                let next = PeerImportFlight { waiters: kept, ..flight };
                let ghost next_view = next@;
                self.flights.insert(copy_bytes(block_id), next);
                proof {
                    lemma_total_replace(before.flights, flight_weight(), block_id@, next_view);
                    assert(self@.flights =~= before.flights.insert(block_id@, next_view));
                    assert(self@.flights.dom() =~= before.flights.dom());
                }
                if full {
                    ImportStart::Refused(
                        PeerImportFailure::terminal(WorkerError::ResourceExhausted),
                    )
                } else {
                    ImportStart::Joined
                }
            },
        }
    }

    /// Notes which task carries an import out.
    pub fn assign_task(&mut self, block_id: &Vec<u8>, task_id: u64)
        requires
            old(self)@.wf(),
            old(self)@.flights.contains_key(block_id@),
        ensures
            final(self)@.wf(),
            final(self)@ == (ImportsView {
                flights: old(self)@.flights.insert(
                    block_id@,
                    (FlightView { task_id: Some(task_id), ..old(self)@.flights[block_id@] }),
                ),
                ..old(self)@
            }),
    {
        let ghost before = self@;
        if let Some(flight) = self.flights.remove(block_id) {
            let next = PeerImportFlight { task_id: Some(task_id), ..flight };
            let ghost next_view = next@;
            self.flights.insert(copy_bytes(block_id), next);
            proof {
                lemma_total_replace(before.flights, flight_weight(), block_id@, next_view);
                assert(self@.flights =~= before.flights.insert(block_id@, next_view));
                assert(self@.flights.dom() =~= before.flights.dom());
            }
        }
    }

    /// Ends an attempt and returns who waited for it. An attempt that is not under way ends
    /// nothing.
    pub fn end(
        &mut self,
        block_id: &Vec<u8>,
        attempt: u64,
        failure: Option<&PeerImportFailure>,
        cutoff_scope: u64,
    ) -> (waiters: Option<Vec<u64>>)
        requires
            old(self)@.wf(),
        ensures
            final(self)@.wf(),
            final(self)@ == old(self)@.ended(
                block_id@,
                attempt,
                (match failure {
                    Some(failure) => Some(*failure),
                    None => None,
                }),
                cutoff_scope,
            ),
            match waiters {
                Some(waiters) => old(self)@.attempting(block_id@, attempt) && waiters@ == old(
                    self,
                )@.flights[block_id@].waiters,
                None => !old(self)@.attempting(block_id@, attempt),
            },
    {
        let ghost before = self@;
        match self.flights.get(block_id) {
            None => return None,
            Some(flight) => {
                if flight.attempt != attempt {
                    return None;
                }
            },
        }
        let failed: usize = self.failures.len();
        match self.flights.remove(block_id) {
            None => None,
            Some(flight) => {
                proof {
                    lemma_total_remove(before.flights, flight_weight(), block_id@);
                    assert(self@.flights.dom() =~= before.flights.dom().remove(block_id@));
                }
                self.bytes = self.bytes - flight.expected_length;
                if let Some(failure) = failure {
                    if !failure.location_failure {
                        self.failures.insert(
                            copy_bytes(block_id),
                            PeerImportFailureFence { cutoff_scope, failure: failure.duplicate() },
                        );
                        proof {
                            assert(self@.failures.dom() =~= before.failures.dom().insert(
                                block_id@,
                            ));
                        }
                    }
                }
                Some(flight.waiters)
            },
        }
    }

    /// Forgets the failures that no read under way must see.
    pub fn prune(&mut self, active_scopes: &crate::table::KeySet<u64>)
        requires
            old(self)@.wf(),
        ensures
            final(self)@.wf(),
            final(self)@ == old(self)@.pruned(active_scopes@),
    {
        let ghost before = self@;
        let needed = |id: &Vec<u8>, fence: &PeerImportFailureFence| -> (met: bool)
            ensures
                met == exists|scope: u64| #[trigger]
                    active_scopes@.contains(scope) && scope <= fence@.cutoff_scope,
        {
            let cutoff: u64 = fence.cutoff_scope;
            let early = |scope: &u64| -> (met: bool)
                ensures
                    met == (*scope <= cutoff),
            {
                *scope <= cutoff
            };
            active_scopes.any(early, Ghost(|scope: u64| scope <= cutoff))
        };
        self.failures.retain(
            needed,
            Ghost(
                |id: Seq<u8>, fence: PeerImportFailureFence|
                    exists|scope: u64| #[trigger]
                        active_scopes@.contains(scope) && scope <= fence.cutoff_scope,
            ),
        );
        proof {
            assert(self@ =~= before.pruned(active_scopes@));
            assert(self@.failures.dom().subset_of(before.failures.dom()));
            vstd::set_lib::lemma_len_subset(self@.failures.dom(), before.failures.dom());
        }
    }

    /// Whether no import was started by a read up to some scope.
    pub fn is_drained(&self, cutoff: u64) -> (drained: bool)
        ensures
            drained == self@.drained(cutoff),
    {
        let early = |id: &Vec<u8>, flight: &PeerImportFlight| -> (met: bool)
            ensures
                met == (flight@.read_scope_id <= cutoff),
        {
            flight.read_scope_id <= cutoff
        };
        !self.flights.any(
            early,
            Ghost(|id: Seq<u8>, flight: FlightView| flight.read_scope_id <= cutoff),
        )
    }
}

} // verus!
