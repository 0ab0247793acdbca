//! The course of a read: what is asked of whom, and what follows from the answers. A read looks the
//! value up, has it resolved where that does not help, pulls what is missing, and reads; it pulls and
//! reads at most twice.
#[allow(unused_imports)]
use crate::bytes::views;
use crate::cached_read::{CachedReadOutcome, DataCoreCachedReadOutcome};
#[allow(unused_imports)]
use crate::cached_read::CachedIntoView;
use crate::data_core_read::{
    fill_imported_parts, DataCoreMaterializeOutcome, DataCoreReadIntoResult, PartialRead,
};
#[allow(unused_imports)]
use crate::data_core_read::{imported_into, view_of, IntoView, PartialView, ReadIntoView};
#[allow(unused_imports)]
use crate::error::blames_location;
use crate::error::{can_refresh_cached_location, map_metadata_error, DmsError, WorkerError};
use crate::node_read::ReadTicket;
use crate::payload::Payload;
use crate::peer_import::{PeerImportFailure, PeerPullSpec};
#[allow(unused_imports)]
use crate::peer_import::PullSpecView;
use crate::protocol::ResolveObjectResponse;
#[allow(unused_imports)]
use crate::protocol::ResolvedView;
use crate::table::Table;
use vstd::prelude::*;

verus! {

/// How often a read pulls what is missing.
pub const READ_PASSES: u8 = 2;

/// What a reader is told once its read has ended: an error of the read itself comes first.
pub fn after_scope<T>(result: Result<T, WorkerError>, finished: Result<(), WorkerError>) -> (told: Result<
    T,
    WorkerError,
>)
    ensures
        told == (match (result, finished) {
            (Ok(value), Ok(_)) => Ok(value),
            (Err(error), _) => Err(error),
            (Ok(_), Err(error)) => Err(error),
        }),
{
    match result {
        Ok(value) => match finished {
            Ok(_) => Ok(value),
            Err(error) => Err(error),
        },
        Err(error) => Err(error),
    }
}

/// What a read does next.
#[derive(Clone, Copy, Debug, PartialEq, Eq, Structural)]
pub enum FlowPhase {
    /// It looks the value up in the cache.
    LookUp,
    /// It pulls what the cached value lacks.
    ImportCached { version: u64 },
    /// It has the value resolved. A refill is the cache's generation in which it was looked up.
    Resolve { exact_version: Option<u64>, refill: Option<u64> },
    /// It reads the value.
    Read { pass: u8, refill: Option<u64> },
    /// It pulls what the value lacks.
    Import { pass: u8, refill: Option<u64> },
    Over,
}

/// How far a read is from its end.
pub open spec fn distance(phase: FlowPhase) -> nat {
    match phase {
        FlowPhase::Over => 0,
        FlowPhase::Import { pass, .. } => if pass == 0 {
            3
        } else {
            1
        },
        FlowPhase::Read { pass, .. } => if pass == 0 {
            4
        } else {
            2
        },
        FlowPhase::Resolve { .. } => 5,
        FlowPhase::ImportCached { .. } => 6,
        FlowPhase::LookUp => 7,
    }
}

/// What came of reading a resolved value once.
pub enum Attempt<T> {
    Ready(T),
    NeedsRemoteBlocks(Vec<PeerPullSpec>),
}

/// The course of a read.
pub struct ReadFlow<T> {
    pub phase: FlowPhase,
    /// What is read, once it is known.
    pub resolved: Option<ResolveObjectResponse>,
    /// The blocks to pull.
    pub specs: Vec<PeerPullSpec>,
    /// What came of the read, once it is over.
    pub outcome: Option<Result<T, WorkerError>>,
}

/// The course of a read, as a value.
#[verifier::reject_recursive_types(T)]
#[verifier::ext_equal]
pub struct FlowView<T> {
    pub phase: FlowPhase,
    pub resolved: Option<ResolvedView>,
    pub specs: Seq<PullSpecView>,
    pub outcome: Option<Result<T, WorkerError>>,
}

impl<T> View for ReadFlow<T> {
    type V = FlowView<T>;

    open spec fn view(&self) -> FlowView<T> {
        FlowView {
            phase: self.phase,
            resolved: view_of(self.resolved),
            specs: views(self.specs@),
            outcome: self.outcome,
        }
    }
}

impl<T> FlowView<T> {
    /// What is true of a read at any time.
    pub open spec fn wf(self) -> bool {
        &&& self.phase is Over <==> self.outcome is Some
        &&& self.phase is Read || self.phase is Import || self.phase is ImportCached
            ==> self.resolved is Some
        &&& match self.phase {
            FlowPhase::Read { pass, .. } => pass < READ_PASSES,
            FlowPhase::Import { pass, .. } => pass < READ_PASSES,
            _ => true,
        }
    }

    /// The read, in another phase.
    pub open spec fn at(self, phase: FlowPhase) -> FlowView<T> {
        FlowView { phase, ..self }
    }

    /// The read, over.
    pub open spec fn over(self, outcome: Result<T, WorkerError>) -> FlowView<T> {
        FlowView { phase: FlowPhase::Over, outcome: Some(outcome), ..self }
    }

    /// The read after the value was resolved, or could not be.
    pub open spec fn was_resolved(self, answer: Result<ResolvedView, DmsError>) -> FlowView<T> {
        let refill = match self.phase {
            FlowPhase::Resolve { refill, .. } => refill,
            _ => None,
        };
        match answer {
            Err(error) => self.over(Err(WorkerError::Stable(error))),
            Ok(resolved) => FlowView {
                phase: FlowPhase::Read { pass: 0, refill },
                resolved: Some(resolved),
                ..self
            },
        }
    }

    /// The read after what was missing was pulled, or could not be. Where the cache knew the value
    /// but no longer where its blocks are, the same version is resolved anew.
    pub open spec fn was_imported(self, answer: Result<(), PeerImportFailure>) -> FlowView<T> {
        match (self.phase, answer) {
            (FlowPhase::ImportCached { .. }, Ok(_)) => self.at(
                FlowPhase::Read { pass: 0, refill: None },
            ),
            (FlowPhase::ImportCached { version }, Err(failure)) => if failure.location_failure
                && blames_location(failure.error) {
                self.at(FlowPhase::Resolve { exact_version: Some(version), refill: None })
            } else {
                self.over(Err(failure.error))
            },
            (FlowPhase::Import { pass, refill }, Ok(_)) => if pass + 1 < READ_PASSES {
                self.at(FlowPhase::Read { pass: (pass + 1) as u8, refill })
            } else {
                self.over(Err(WorkerError::NotFound))
            },
            (_, Err(failure)) => self.over(Err(failure.error)),
            (_, Ok(_)) => self,
        }
    }

    /// The read after it was tried.
    pub open spec fn was_read(self, answer: Result<Attempt<T>, WorkerError>) -> FlowView<T> {
        match (self.phase, answer) {
            (_, Err(error)) => self.over(Err(error)),
            (_, Ok(Attempt::Ready(value))) => self.over(Ok(value)),
            (FlowPhase::Read { pass, refill }, Ok(Attempt::NeedsRemoteBlocks(specs))) => FlowView {
                phase: FlowPhase::Import { pass, refill },
                specs: views(specs@),
                ..self
            },
            (_, Ok(_)) => self,
        }
    }
}

impl FlowView<ReadTicket> {
    /// The read after the value was looked up.
    pub open spec fn was_looked_up(
        self,
        answer: Result<(Option<u64>, CachedReadOutcome), WorkerError>,
    ) -> FlowView<ReadTicket> {
        match answer {
            Err(error) => self.over(Err(error)),
            Ok((_, CachedReadOutcome::Ready(ticket))) => self.over(Ok(ticket)),
            Ok((_, CachedReadOutcome::NeedsExactRefresh { version })) => self.at(
                FlowPhase::Resolve { exact_version: Some(version), refill: None },
            ),
            Ok((_, CachedReadOutcome::NeedsRemoteBlocks { resolved, specs })) => if resolved@.layout
                is None {
                self.over(Err(WorkerError::NotFound))
            } else {
                FlowView {
                    phase: FlowPhase::ImportCached { version: resolved@.layout->0.version },
                    resolved: Some(resolved@),
                    specs: views(specs@),
                    ..self
                }
            },
            Ok((token, CachedReadOutcome::Miss)) => self.at(
                FlowPhase::Resolve { exact_version: None, refill: token },
            ),
        }
    }
}

/// Each answer brings a read nearer to its end, so it ends after at most seven answers, and it pulls
/// what a resolved value lacks at most twice.
pub proof fn a_read_ends<T>(
    flow: FlowView<T>,
    resolved: Result<ResolvedView, DmsError>,
    imported: Result<(), PeerImportFailure>,
    read: Result<Attempt<T>, WorkerError>,
)
    requires
        flow.wf(),
    ensures
        distance(flow.phase) <= 7,
        flow.phase is Resolve ==> distance(flow.was_resolved(resolved).phase) < distance(
            flow.phase,
        ),
        flow.phase is Import || flow.phase is ImportCached ==> distance(
            flow.was_imported(imported).phase,
        ) < distance(flow.phase),
        flow.phase is Read ==> distance(flow.was_read(read).phase) < distance(flow.phase),
        distance(flow.phase) == 0 <==> flow.outcome is Some,
{
}

/// A read ends with what was read: with the value once it is there, with an error as soon as a step
/// fails. A value that lacks blocks is read again, as it was resolved, after these blocks were pulled,
/// and is given up only when it still lacks some the second time.
pub proof fn a_read_ends_with_what_was_read<T>(
    flow: FlowView<T>,
    value: T,
    error: WorkerError,
    refusal: DmsError,
    resolved: ResolvedView,
    specs: Vec<PeerPullSpec>,
    failure: PeerImportFailure,
)
    requires
        flow.wf(),
    ensures
        flow.phase is Read ==> {
            &&& flow.was_read(Ok(Attempt::Ready(value))).outcome == Some(
                Ok::<T, WorkerError>(value),
            )
            &&& flow.was_read(Err(error)).outcome == Some(Err::<T, WorkerError>(error))
            &&& flow.was_read(Ok(Attempt::NeedsRemoteBlocks(specs))).outcome is None
            &&& flow.was_read(Ok(Attempt::NeedsRemoteBlocks(specs))).phase is Import
            &&& flow.was_read(Ok(Attempt::NeedsRemoteBlocks(specs))).specs == views(specs@)
            &&& flow.was_read(Ok(Attempt::NeedsRemoteBlocks(specs))).resolved == flow.resolved
        },
        flow.phase is Resolve ==> {
            &&& flow.was_resolved(Ok(resolved)).phase is Read
            &&& flow.was_resolved(Ok(resolved)).phase->Read_pass == 0
            &&& flow.was_resolved(Ok(resolved)).resolved == Some(resolved)
            &&& flow.was_resolved(Ok(resolved)).outcome is None
            &&& flow.was_resolved(Err(refusal)).outcome == Some(
                Err::<T, WorkerError>(WorkerError::Stable(refusal)),
            )
        },
        flow.phase matches FlowPhase::Import { pass, .. } ==> {
            &&& pass == 0 ==> flow.was_imported(Ok(())).phase is Read && flow.was_imported(
                Ok(()),
            ).phase->Read_pass == 1 && flow.was_imported(Ok(())).resolved == flow.resolved
                && flow.was_imported(Ok(())).outcome is None
            &&& pass == 1 ==> flow.was_imported(Ok(())).outcome == Some(
                Err::<T, WorkerError>(WorkerError::NotFound),
            )
            &&& flow.was_imported(Err(failure)).outcome == Some(
                Err::<T, WorkerError>(failure.error),
            )
        },
        flow.phase is ImportCached ==> {
            &&& flow.was_imported(Ok(())).phase is Read
            &&& flow.was_imported(Ok(())).resolved == flow.resolved
            &&& !failure.location_failure ==> flow.was_imported(Err(failure)).outcome == Some(
                Err::<T, WorkerError>(failure.error),
            )
        },
{
}

/// A value that the cache has is what its reader gets. One that it lacks blocks of is completed by
/// pulling these blocks; one whose blocks it cannot find is resolved in the version that it knew; one
/// that it does not know is resolved in the current version, and may then be remembered in the
/// generation in which it was missed.
pub proof fn a_look_at_the_cache_leads_on(
    flow: FlowView<ReadTicket>,
    token: Option<u64>,
    ticket: ReadTicket,
    version: u64,
    resolved: ResolveObjectResponse,
    specs: Vec<PeerPullSpec>,
    error: WorkerError,
)
    requires
        flow.wf(),
        flow.phase is LookUp,
    ensures
        flow.was_looked_up(Ok((token, CachedReadOutcome::Ready(ticket)))).outcome == Some(
            Ok::<ReadTicket, WorkerError>(ticket),
        ),
        flow.was_looked_up(Err(error)).outcome == Some(Err::<ReadTicket, WorkerError>(error)),
        flow.was_looked_up(Ok((token, CachedReadOutcome::Miss))).phase == (FlowPhase::Resolve {
            exact_version: None,
            refill: token,
        }),
        flow.was_looked_up(Ok((token, CachedReadOutcome::NeedsExactRefresh { version }))).phase
            == (FlowPhase::Resolve { exact_version: Some(version), refill: None }),
        ({
            let next = flow.was_looked_up(
                Ok((token, CachedReadOutcome::NeedsRemoteBlocks { resolved, specs })),
            );
            resolved@.layout is Some ==> next.phase == (FlowPhase::ImportCached {
                version: resolved@.layout->0.version,
            }) && next.resolved == Some(resolved@) && next.specs == views(specs@)
        }),
{
}

/// The generation of the cache that a read may still fill.
pub open spec fn may_fill(phase: FlowPhase) -> Option<u64> {
    match phase {
        FlowPhase::Resolve { refill, .. } => refill,
        FlowPhase::Read { refill, .. } => refill,
        FlowPhase::Import { refill, .. } => refill,
        _ => None,
    }
}

/// Only a lookup that missed lets a read fill the cache, and only in the generation in which it
/// missed: no later step brings another generation in.
pub proof fn only_a_lookup_that_missed_lets_a_read_fill_the_cache<T>(
    flow: FlowView<T>,
    resolved: Result<ResolvedView, DmsError>,
    imported: Result<(), PeerImportFailure>,
    read: Result<Attempt<T>, WorkerError>,
    generation: u64,
)
    requires
        flow.wf(),
        may_fill(flow.phase) != Some(generation),
    ensures
        flow.phase is Resolve ==> may_fill(flow.was_resolved(resolved).phase) != Some(generation),
        flow.phase is Import || flow.phase is ImportCached ==> may_fill(
            flow.was_imported(imported).phase,
        ) != Some(generation),
        flow.phase is Read ==> may_fill(flow.was_read(read).phase) != Some(generation),
{
}

/// A value whose blocks the cache can no longer find is read in the version that the cache knew, not
/// in a later one.
pub proof fn a_stale_location_is_refreshed_in_the_same_version(
    flow: FlowView<ReadTicket>,
    version: u64,
    failure: PeerImportFailure,
)
    requires
        flow.phase == (FlowPhase::ImportCached { version }),
        failure.location_failure,
        blames_location(failure.error),
    ensures
        flow.was_imported(Err(failure)).phase == (FlowPhase::Resolve {
            exact_version: Some(version),
            refill: None,
        }),
{
}

impl<T> ReadFlow<T> {
    /// A read of a value, in a certain version or in the current one. The current one is looked up
    /// first where the reader may use the cache.
    pub fn new(has_metadata: bool, exact_version: Option<u64>, use_cache: bool) -> (flow: Self)
        ensures
            flow@.wf(),
            flow@.specs == Seq::<PullSpecView>::empty(),
            flow@.resolved is None,
            if !has_metadata {
                flow@.outcome == Some(Err::<T, WorkerError>(WorkerError::MetadataUnavailable))
            } else if use_cache && exact_version is None {
                flow@.phase is LookUp
            } else {
                flow@.phase == (FlowPhase::Resolve { exact_version, refill: None })
            },
    {
        let specs: Vec<PeerPullSpec> = Vec::new();
        assert(views(specs@) =~= Seq::empty());
        if !has_metadata {
            return ReadFlow {
                phase: FlowPhase::Over,
                resolved: None,
                specs,
                outcome: Some(Err(WorkerError::MetadataUnavailable)),
            };
        }
        ReadFlow {
            phase: if use_cache && exact_version.is_none() {
                FlowPhase::LookUp
            } else {
                FlowPhase::Resolve { exact_version, refill: None }
            },
            resolved: None,
            specs,
            outcome: None,
        }
    }

    fn end(&mut self, outcome: Result<T, WorkerError>)
        ensures
            final(self)@ == old(self)@.over(outcome),
    {
        self.phase = FlowPhase::Over;
        self.outcome = Some(outcome);
    }

    /// Goes on with what the metadata service said.
    pub fn resolved(&mut self, answer: Result<ResolveObjectResponse, DmsError>)
        requires
            old(self)@.wf(),
            old(self)@.phase is Resolve,
        ensures
            final(self)@.wf(),
            final(self)@ == old(self)@.was_resolved(
                match answer {
                    Ok(resolved) => Ok(resolved@),
                    Err(error) => Err(error),
                },
            ),
    {
        let refill: Option<u64> = match self.phase {
            FlowPhase::Resolve { refill, .. } => refill,
            _ => None,
        };
        match answer {
            Err(error) => {
                self.end(Err(map_metadata_error(error)));
            },
            Ok(resolved) => {
                self.resolved = Some(resolved);
                self.phase = FlowPhase::Read { pass: 0, refill };
            },
        }
    }

    /// Goes on with what came of the pulls.
    pub fn imported(&mut self, answer: Result<(), PeerImportFailure>)
        requires
            old(self)@.wf(),
            old(self)@.phase is Import || old(self)@.phase is ImportCached,
        ensures
            final(self)@.wf(),
            final(self)@ == old(self)@.was_imported(answer),
    {
        match (self.phase, answer) {
            (FlowPhase::ImportCached { .. }, Ok(_)) => {
                self.phase = FlowPhase::Read { pass: 0, refill: None };
            },
            (FlowPhase::ImportCached { version }, Err(failure)) => {
                if failure.location_failure && can_refresh_cached_location(&failure.error) {
                    self.phase = FlowPhase::Resolve {
                        exact_version: Some(version),
                        refill: None,
                    };
                } else {
                    self.end(Err(failure.error));
                }
            },
            (FlowPhase::Import { pass, refill }, Ok(_)) => {
                if pass + 1 < READ_PASSES {
                    self.phase = FlowPhase::Read { pass: pass + 1, refill };
                } else {
                    self.end(Err(WorkerError::NotFound));
                }
            },
            (_, Err(failure)) => {
                self.end(Err(failure.error));
            },
            (_, Ok(_)) => {},
        }
    }

    /// Goes on with what came of reading.
    pub fn read(&mut self, answer: Result<Attempt<T>, WorkerError>)
        requires
            old(self)@.wf(),
            old(self)@.phase is Read,
        ensures
            final(self)@.wf(),
            final(self)@ == old(self)@.was_read(answer),
    {
        match (self.phase, answer) {
            (_, Err(error)) => {
                self.end(Err(error));
            },
            (_, Ok(Attempt::Ready(value))) => {
                self.end(Ok(value));
            },
            (FlowPhase::Read { pass, refill }, Ok(Attempt::NeedsRemoteBlocks(specs))) => {
                self.specs = specs;
                self.phase = FlowPhase::Import { pass, refill };
            },
            (_, Ok(_)) => {},
        }
    }
}

impl ReadFlow<ReadTicket> {
    /// Goes on with what came of looking the value up.
    pub fn looked_up(&mut self, answer: Result<(Option<u64>, CachedReadOutcome), WorkerError>)
        requires
            old(self)@.wf(),
            old(self)@.phase is LookUp,
        ensures
            final(self)@.wf(),
            final(self)@ == old(self)@.was_looked_up(answer),
            distance(final(self)@.phase) < distance(old(self)@.phase),
    {
        match answer {
            Err(error) => {
                self.end(Err(error));
            },
            Ok((_, CachedReadOutcome::Ready(ticket))) => {
                self.end(Ok(ticket));
            },
            Ok((_, CachedReadOutcome::NeedsExactRefresh { version })) => {
                self.phase = FlowPhase::Resolve { exact_version: Some(version), refill: None };
            },
            Ok((_, CachedReadOutcome::NeedsRemoteBlocks { resolved, specs })) => {
                match &resolved.layout {
                    None => {
                        self.end(Err(WorkerError::NotFound));
                    },
                    Some(layout) => {
                        let version: u64 = layout.version;
                        self.resolved = Some(resolved);
                        self.specs = specs;
                        self.phase = FlowPhase::ImportCached { version };
                    },
                }
            },
            Ok((token, CachedReadOutcome::Miss)) => {
                self.phase = FlowPhase::Resolve { exact_version: None, refill: token };
            },
        }
    }
}

/// What came of a read into a buffer, in the end.
#[derive(Debug, PartialEq, Eq)]
pub enum DataCoreReadAttempt {
    Ready(DataCoreReadIntoResult),
    BufferTooSmall { version: u64, required: usize },
    NotFound,
}

/// What came of a read into a buffer, as a value.
#[verifier::ext_equal]
pub enum AttemptView {
    Ready(ReadIntoView),
    BufferTooSmall { version: u64, required: usize },
    NotFound,
}

impl View for DataCoreReadAttempt {
    type V = AttemptView;

    open spec fn view(&self) -> AttemptView {
        match *self {
            DataCoreReadAttempt::Ready(result) => AttemptView::Ready(result@),
            DataCoreReadAttempt::BufferTooSmall { version, required } =>
                AttemptView::BufferTooSmall { version, required },
            DataCoreReadAttempt::NotFound => AttemptView::NotFound,
        }
    }
}

/// The course of a read into a buffer.
pub struct DataCoreFlow {
    pub phase: FlowPhase,
    /// The version that is read, if not the current one.
    pub exact_version: Option<u64>,
    /// Whether a file is pulled as a whole when its start is read.
    pub prefetch: bool,
    pub resolved: Option<ResolveObjectResponse>,
    /// The blocks to pull for a cached value.
    pub specs: Vec<PeerPullSpec>,
    /// What the buffer lacks, while it is pulled.
    pub partial: Option<PartialRead>,
    /// The buffer, while nobody else has it.
    pub output: Vec<u8>,
    pub outcome: Option<Result<DataCoreReadAttempt, WorkerError>>,
}

/// The course of a read into a buffer, as a value.
#[verifier::ext_equal]
pub struct DataCoreFlowView {
    pub phase: FlowPhase,
    pub exact_version: Option<u64>,
    pub prefetch: bool,
    pub resolved: Option<ResolvedView>,
    pub specs: Seq<PullSpecView>,
    pub partial: Option<PartialView>,
    pub output: Seq<u8>,
    pub outcome: Option<Result<AttemptView, WorkerError>>,
}

impl View for DataCoreFlow {
    type V = DataCoreFlowView;

    open spec fn view(&self) -> DataCoreFlowView {
        DataCoreFlowView {
            phase: self.phase,
            exact_version: self.exact_version,
            prefetch: self.prefetch,
            resolved: view_of(self.resolved),
            specs: views(self.specs@),
            partial: view_of(self.partial),
            output: self.output@,
            outcome: match self.outcome {
                Some(Ok(attempt)) => Some(Ok(attempt@)),
                Some(Err(error)) => Some(Err(error)),
                None => None,
            },
        }
    }
}

impl DataCoreFlowView {
    /// What is true of a read at any time.
    pub open spec fn wf(self) -> bool {
        &&& self.phase is Over <==> self.outcome is Some
        &&& self.phase is Read || self.phase is Import || self.phase is ImportCached
            ==> self.resolved is Some
        &&& self.phase is Import ==> self.partial is Some
        &&& match self.phase {
            FlowPhase::Read { pass, .. } => pass < READ_PASSES,
            FlowPhase::Import { pass, .. } => pass < READ_PASSES,
            _ => true,
        }
    }

    /// The read, in another phase.
    pub open spec fn at(self, phase: FlowPhase) -> DataCoreFlowView {
        DataCoreFlowView { phase, ..self }
    }

    /// The read, over.
    pub open spec fn over(self, outcome: Result<AttemptView, WorkerError>) -> DataCoreFlowView {
        DataCoreFlowView { phase: FlowPhase::Over, outcome: Some(outcome), ..self }
    }

    /// The read after the value was looked up. Only a read of the current version may fill the cache.
    pub open spec fn was_looked_up(
        self,
        answer: Result<(Option<u64>, CachedIntoView), WorkerError>,
    ) -> DataCoreFlowView {
        match answer {
            Err(error) => self.over(Err(error)),
            Ok((_, CachedIntoView::Ready(result))) => self.over(Ok(AttemptView::Ready(result))),
            Ok((_, CachedIntoView::BufferTooSmall { version, required })) => self.over(
                Ok(AttemptView::BufferTooSmall { version, required }),
            ),
            Ok((_, CachedIntoView::NotFound)) => self.over(Ok(AttemptView::NotFound)),
            Ok((_, CachedIntoView::NeedsRemoteBlocks { resolved, specs, output })) =>
                DataCoreFlowView {
                phase: FlowPhase::ImportCached {
                    version: match resolved.layout {
                        Some(layout) => layout.version,
                        None => 0,
                    },
                },
                resolved: Some(resolved),
                specs,
                output,
                ..self
            },
            Ok((token, CachedIntoView::Miss { output })) => DataCoreFlowView {
                phase: FlowPhase::Resolve {
                    exact_version: self.exact_version,
                    refill: if self.exact_version is None {
                        token
                    } else {
                        None
                    },
                },
                output,
                ..self
            },
        }
    }

    /// The read after the value was resolved, or could not be.
    pub open spec fn was_resolved(self, answer: Result<ResolvedView, DmsError>) -> DataCoreFlowView {
        let refill = match self.phase {
            FlowPhase::Resolve { refill, .. } => refill,
            _ => None,
        };
        match answer {
            Err(error) => self.over(Err(WorkerError::Stable(error))),
            Ok(resolved) => DataCoreFlowView {
                phase: FlowPhase::Read { pass: 0, refill },
                resolved: Some(resolved),
                ..self
            },
        }
    }

    /// The read after it was tried.
    pub open spec fn was_read(self, answer: Result<IntoView, WorkerError>) -> DataCoreFlowView {
        let (pass, refill) = match self.phase {
            FlowPhase::Read { pass, refill } => (pass, refill),
            _ => (0u8, None),
        };
        match answer {
            Err(error) => self.over(Err(error)),
            Ok(IntoView::Ready(result)) => self.over(Ok(AttemptView::Ready(result))),
            Ok(IntoView::BufferTooSmall { version, required }) => self.over(
                Ok(AttemptView::BufferTooSmall { version, required }),
            ),
            Ok(IntoView::NotFound) => self.over(Ok(AttemptView::NotFound)),
            Ok(IntoView::NeedsRemoteBlocks(partial)) => DataCoreFlowView {
                phase: FlowPhase::Import { pass, refill },
                partial: Some(partial),
                ..self
            },
        }
    }

    /// The read after what the cached value lacked was pulled, or could not be.
    pub open spec fn was_cached_imported(self, answer: Result<(), PeerImportFailure>) -> DataCoreFlowView {
        match answer {
            Ok(_) => self.at(FlowPhase::Read { pass: 0, refill: None }),
            Err(failure) => self.over(Err(failure.error)),
        }
    }

    /// The read after what was missing was pulled, or could not be. Where a file is pulled as a
    /// whole and all that the buffer lacks came along, the buffer is filled at once; else the value
    /// is read again.
    pub open spec fn was_imported(
        self,
        answer: Result<Map<Seq<u8>, Seq<u8>>, PeerImportFailure>,
    ) -> DataCoreFlowView {
        let (pass, refill) = match self.phase {
            FlowPhase::Import { pass, refill } => (pass, refill),
            _ => (0u8, None),
        };
        match answer {
            Err(failure) => DataCoreFlowView { partial: None, ..self }.over(Err(failure.error)),
            Ok(imported) => {
                let partial = self.partial->0;
                let (filled, complete) = if self.prefetch {
                    imported_into(partial.remote_parts, imported, partial.output)
                } else {
                    (partial.output, Ok(false))
                };
                let next = DataCoreFlowView { partial: None, output: filled, ..self };
                match complete {
                    Err(error) => next.over(Err(error)),
                    Ok(true) => DataCoreFlowView { output: Seq::empty(), ..next }.over(
                        Ok(
                            AttemptView::Ready(
                                ReadIntoView {
                                    version: partial.version,
                                    logical_length: partial.logical_length,
                                    bytes: filled,
                                    bytes_read: partial.bytes_read,
                                },
                            ),
                        ),
                    ),
                    Ok(false) => if pass + 1 < READ_PASSES {
                        next.at(FlowPhase::Read { pass: (pass + 1) as u8, refill })
                    } else {
                        next.over(Err(WorkerError::NotFound))
                    },
                }
            },
        }
    }
}

/// Each answer brings a read into a buffer nearer to its end.
pub proof fn a_read_into_a_buffer_ends(
    flow: DataCoreFlowView,
    looked_up: Result<(Option<u64>, CachedIntoView), WorkerError>,
    resolved: Result<ResolvedView, DmsError>,
    cached: Result<(), PeerImportFailure>,
    imported: Result<Map<Seq<u8>, Seq<u8>>, PeerImportFailure>,
    read: Result<IntoView, WorkerError>,
)
    requires
        flow.wf(),
    ensures
        distance(flow.phase) <= 7,
        flow.phase is LookUp ==> distance(flow.was_looked_up(looked_up).phase) < distance(
            flow.phase,
        ),
        flow.phase is Resolve ==> distance(flow.was_resolved(resolved).phase) < distance(
            flow.phase,
        ),
        flow.phase is ImportCached ==> distance(flow.was_cached_imported(cached).phase) < distance(
            flow.phase,
        ),
        flow.phase is Import ==> distance(flow.was_imported(imported).phase) < distance(flow.phase),
        flow.phase is Read ==> distance(flow.was_read(read).phase) < distance(flow.phase),
        distance(flow.phase) == 0 <==> flow.outcome is Some,
{
}

/// A read into a buffer ends with what was read: with the buffer once it is filled, with what the
/// buffer would take, or with an error as soon as a step fails. What was pulled for a file goes right
/// into the buffer where all that it lacks came along; otherwise the value is read again, as it was
/// resolved, and is given up only when it still lacks blocks the second time. The buffer comes back
/// from a look at the cache as the cache left it.
pub proof fn a_read_into_a_buffer_ends_with_what_was_read(
    flow: DataCoreFlowView,
    read: ReadIntoView,
    version: u64,
    required: usize,
    partial: PartialView,
    resolved: ResolvedView,
    refusal: DmsError,
    error: WorkerError,
    failure: PeerImportFailure,
    imported: Map<Seq<u8>, Seq<u8>>,
    token: Option<u64>,
    output: Seq<u8>,
    specs: Seq<PullSpecView>,
)
    requires
        flow.wf(),
    ensures
        flow.phase is Read ==> {
            &&& flow.was_read(Ok(IntoView::Ready(read))).outcome == Some(
                Ok::<AttemptView, WorkerError>(AttemptView::Ready(read)),
            )
            &&& flow.was_read(Ok(IntoView::BufferTooSmall { version, required })).outcome == Some(
                Ok::<AttemptView, WorkerError>(
                    AttemptView::BufferTooSmall { version, required },
                ),
            )
            &&& flow.was_read(Ok(IntoView::NotFound)).outcome == Some(
                Ok::<AttemptView, WorkerError>(AttemptView::NotFound),
            )
            &&& flow.was_read(Err(error)).outcome == Some(
                Err::<AttemptView, WorkerError>(error),
            )
            &&& flow.was_read(Ok(IntoView::NeedsRemoteBlocks(partial))).phase is Import
            &&& flow.was_read(Ok(IntoView::NeedsRemoteBlocks(partial))).partial == Some(partial)
            &&& flow.was_read(Ok(IntoView::NeedsRemoteBlocks(partial))).resolved == flow.resolved
        },
        flow.phase is Resolve ==> {
            &&& flow.was_resolved(Ok(resolved)).phase is Read
            &&& flow.was_resolved(Ok(resolved)).phase->Read_pass == 0
            &&& flow.was_resolved(Ok(resolved)).resolved == Some(resolved)
            &&& flow.was_resolved(Err(refusal)).outcome == Some(
                Err::<AttemptView, WorkerError>(WorkerError::Stable(refusal)),
            )
        },
        flow.phase matches FlowPhase::Import { pass, .. } ==> {
            let held = flow.partial->0;
            let next = flow.was_imported(Ok(imported));
            let (filled, complete) = imported_into(held.remote_parts, imported, held.output);
            &&& flow.was_imported(Err(failure)).outcome == Some(
                Err::<AttemptView, WorkerError>(failure.error),
            )
            &&& flow.prefetch && complete == Ok::<bool, WorkerError>(true) ==> next.outcome == Some(
                Ok::<AttemptView, WorkerError>(
                    AttemptView::Ready(
                        ReadIntoView {
                            version: held.version,
                            logical_length: held.logical_length,
                            bytes: filled,
                            bytes_read: held.bytes_read,
                        },
                    ),
                ),
            )
            &&& !flow.prefetch && pass == 0 ==> next.phase is Read && next.phase->Read_pass == 1
                && next.output == held.output && next.resolved == flow.resolved
            &&& !flow.prefetch && pass == 1 ==> next.outcome == Some(
                Err::<AttemptView, WorkerError>(WorkerError::NotFound),
            )
        },
        flow.phase is ImportCached ==> {
            &&& flow.was_cached_imported(Ok(())).phase is Read
            &&& flow.was_cached_imported(Ok(())).resolved == flow.resolved
            &&& flow.was_cached_imported(Err(failure)).outcome == Some(
                Err::<AttemptView, WorkerError>(failure.error),
            )
        },
        flow.phase is LookUp ==> {
            &&& flow.was_looked_up(Ok((token, CachedIntoView::Ready(read)))).outcome == Some(
                Ok::<AttemptView, WorkerError>(AttemptView::Ready(read)),
            )
            &&& flow.was_looked_up(
                Ok((token, CachedIntoView::BufferTooSmall { version, required })),
            ).outcome == Some(
                Ok::<AttemptView, WorkerError>(
                    AttemptView::BufferTooSmall { version, required },
                ),
            )
            &&& flow.was_looked_up(Err(error)).outcome == Some(
                Err::<AttemptView, WorkerError>(error),
            )
            &&& flow.was_looked_up(Ok((token, CachedIntoView::Miss { output }))).phase == (
            FlowPhase::Resolve {
                exact_version: flow.exact_version,
                refill: if flow.exact_version is None {
                    token
                } else {
                    None
                },
            })
            &&& flow.was_looked_up(Ok((token, CachedIntoView::Miss { output }))).output == output
            &&& flow.was_looked_up(
                Ok((token, CachedIntoView::NeedsRemoteBlocks { resolved, specs, output })),
            ).phase is ImportCached
            &&& flow.was_looked_up(
                Ok((token, CachedIntoView::NeedsRemoteBlocks { resolved, specs, output })),
            ).resolved == Some(resolved)
            &&& flow.was_looked_up(
                Ok((token, CachedIntoView::NeedsRemoteBlocks { resolved, specs, output })),
            ).specs == specs
            &&& flow.was_looked_up(
                Ok((token, CachedIntoView::NeedsRemoteBlocks { resolved, specs, output })),
            ).output == output
        },
{
}

impl DataCoreFlow {
    /// A read of a value into a buffer.
    pub fn new(has_metadata: bool, exact_version: Option<u64>, output: Vec<u8>) -> (flow: Self)
        ensures
            flow@.wf(),
            flow@ == (DataCoreFlowView {
                phase: if has_metadata {
                    FlowPhase::LookUp
                } else {
                    FlowPhase::Over
                },
                exact_version,
                prefetch: false,
                resolved: None,
                specs: Seq::empty(),
                partial: None,
                output: output@,
                outcome: if has_metadata {
                    None
                } else {
                    Some(Err(WorkerError::MetadataUnavailable))
                },
            }),
    {
        let specs: Vec<PeerPullSpec> = Vec::new();
        assert(views(specs@) =~= Seq::empty());
        DataCoreFlow {
            phase: if has_metadata {
                FlowPhase::LookUp
            } else {
                FlowPhase::Over
            },
            exact_version,
            prefetch: false,
            resolved: None,
            specs,
            partial: None,
            output,
            outcome: if has_metadata {
                None
            } else {
                Some(Err(WorkerError::MetadataUnavailable))
            },
        }
    }

    /// A read of a file that is resolved already.
    pub fn pre_resolved(resolved: ResolveObjectResponse, output: Vec<u8>) -> (flow: Self)
        ensures
            flow@.wf(),
            flow@ == (DataCoreFlowView {
                phase: FlowPhase::Read { pass: 0, refill: None },
                exact_version: None,
                prefetch: true,
                resolved: Some(resolved@),
                specs: Seq::empty(),
                partial: None,
                output: output@,
                outcome: None,
            }),
    {
        let specs: Vec<PeerPullSpec> = Vec::new();
        assert(views(specs@) =~= Seq::empty());
        DataCoreFlow {
            phase: FlowPhase::Read { pass: 0, refill: None },
            exact_version: None,
            prefetch: true,
            resolved: Some(resolved),
            specs,
            partial: None,
            output,
            outcome: None,
        }
    }

    fn end(&mut self, outcome: Result<DataCoreReadAttempt, WorkerError>)
        ensures
            final(self)@ == old(self)@.over(
                match outcome {
                    Ok(attempt) => Ok(attempt@),
                    Err(error) => Err(error),
                },
            ),
    {
        self.phase = FlowPhase::Over;
        self.outcome = Some(outcome);
    }

    /// Goes on with what came of looking the value up.
    pub fn looked_up(
        &mut self,
        answer: Result<(Option<u64>, DataCoreCachedReadOutcome), WorkerError>,
    )
        requires
            old(self)@.wf(),
            old(self)@.phase is LookUp,
        ensures
            final(self)@.wf(),
            final(self)@ == old(self)@.was_looked_up(
                match answer {
                    Ok((token, outcome)) => Ok((token, outcome@)),
                    Err(error) => Err(error),
                },
            ),
    {
        match answer {
            Err(error) => {
                self.end(Err(error));
            },
            Ok((_, DataCoreCachedReadOutcome::Ready(result))) => {
                self.end(Ok(DataCoreReadAttempt::Ready(result)));
            },
            Ok((_, DataCoreCachedReadOutcome::BufferTooSmall { version, required })) => {
                self.end(Ok(DataCoreReadAttempt::BufferTooSmall { version, required }));
            },
            Ok((_, DataCoreCachedReadOutcome::NotFound)) => {
                self.end(Ok(DataCoreReadAttempt::NotFound));
            },
            Ok((_, DataCoreCachedReadOutcome::NeedsRemoteBlocks { resolved, specs, output })) => {
                let version: u64 = match &resolved.layout {
                    Some(layout) => layout.version,
                    None => 0,
                };
                self.resolved = Some(resolved);
                self.specs = specs;
                self.output = output;
                self.phase = FlowPhase::ImportCached { version };
            },
            Ok((token, DataCoreCachedReadOutcome::Miss { output })) => {
                self.output = output;
                let refill: Option<u64> = if self.exact_version.is_none() {
                    token
                } else {
                    None
                };
                self.phase = FlowPhase::Resolve { exact_version: self.exact_version, refill };
            },
        }
    }

    /// Goes on with what the metadata service said.
    pub fn resolved(&mut self, answer: Result<ResolveObjectResponse, DmsError>)
        requires
            old(self)@.wf(),
            old(self)@.phase is Resolve,
        ensures
            final(self)@.wf(),
            final(self)@ == old(self)@.was_resolved(
                match answer {
                    Ok(resolved) => Ok(resolved@),
                    Err(error) => Err(error),
                },
            ),
    {
        let refill: Option<u64> = match self.phase {
            FlowPhase::Resolve { refill, .. } => refill,
            _ => None,
        };
        match answer {
            Err(error) => {
                self.end(Err(map_metadata_error(error)));
            },
            Ok(resolved) => {
                self.resolved = Some(resolved);
                self.phase = FlowPhase::Read { pass: 0, refill };
            },
        }
    }

    /// Takes the buffer, to have it filled.
    pub fn take_output(&mut self) -> (output: Vec<u8>)
        requires
            old(self)@.wf(),
        ensures
            final(self)@.wf(),
            output@ == old(self)@.output,
            final(self)@ == (DataCoreFlowView { output: Seq::empty(), ..old(self)@ }),
    {
        let mut output: Vec<u8> = Vec::new();
        std::mem::swap(&mut output, &mut self.output);
        assert(self.output@ =~= Seq::empty());
        output
    }

    /// Goes on with what came of reading.
    pub fn read(&mut self, answer: Result<DataCoreMaterializeOutcome, WorkerError>)
        requires
            old(self)@.wf(),
            old(self)@.phase is Read,
        ensures
            final(self)@.wf(),
            final(self)@ == old(self)@.was_read(
                match answer {
                    Ok(outcome) => Ok(outcome@),
                    Err(error) => Err(error),
                },
            ),
    {
        let (pass, refill): (u8, Option<u64>) = match self.phase {
            FlowPhase::Read { pass, refill } => (pass, refill),
            _ => (0, None),
        };
        match answer {
            Err(error) => {
                self.end(Err(error));
            },
            Ok(DataCoreMaterializeOutcome::Ready(result)) => {
                self.end(Ok(DataCoreReadAttempt::Ready(result)));
            },
            Ok(DataCoreMaterializeOutcome::BufferTooSmall { version, required }) => {
                self.end(Ok(DataCoreReadAttempt::BufferTooSmall { version, required }));
            },
            Ok(DataCoreMaterializeOutcome::NotFound) => {
                self.end(Ok(DataCoreReadAttempt::NotFound));
            },
            Ok(DataCoreMaterializeOutcome::NeedsRemoteBlocks(partial)) => {
                self.partial = Some(partial);
                self.phase = FlowPhase::Import { pass, refill };
            },
        }
    }

    /// Goes on with what came of the pulls for a cached value.
    pub fn cached_imported(&mut self, answer: Result<(), PeerImportFailure>)
        requires
            old(self)@.wf(),
            old(self)@.phase is ImportCached,
        ensures
            final(self)@.wf(),
            final(self)@ == old(self)@.was_cached_imported(answer),
    {
        match answer {
            Ok(_) => {
                self.phase = FlowPhase::Read { pass: 0, refill: None };
            },
            Err(failure) => {
                self.end(Err(failure.error));
            },
        }
    }

    /// Goes on with what came of the pulls: the bytes of the blocks that were waited for, as far as
    /// they came along.
    pub fn imported(&mut self, answer: Result<Table<Vec<u8>, Payload>, PeerImportFailure>)
        requires
            old(self)@.wf(),
            old(self)@.phase is Import,
        ensures
            final(self)@.wf(),
            final(self)@ == old(self)@.was_imported(
                match answer {
                    Ok(imported) => Ok(imported@),
                    Err(failure) => Err(failure),
                },
            ),
    {
        let (pass, refill): (u8, Option<u64>) = match self.phase {
            FlowPhase::Import { pass, refill } => (pass, refill),
            _ => (0, None),
        };
        let mut waiting: Option<PartialRead> = None;
        std::mem::swap(&mut waiting, &mut self.partial);
        match (answer, waiting) {
            (Err(failure), _) => {
                self.end(Err(failure.error));
            },
            (Ok(imported), Some(partial)) => {
                let mut output: Vec<u8> = partial.output;
                let complete: Result<bool, WorkerError> = if self.prefetch {
                    fill_imported_parts(&mut output, &partial.remote_parts, &imported)
                } else {
                    Ok(false)
                };
                match complete {
                    Err(error) => {
                        self.output = output;
                        self.end(Err(error));
                    },
                    Ok(true) => {
                        let nothing: Vec<u8> = Vec::new();
                        assert(nothing@ =~= Seq::empty());
                        self.output = nothing;
                        self.end(
                            Ok(
                                DataCoreReadAttempt::Ready(
                                    DataCoreReadIntoResult {
                                        version: partial.version,
                                        logical_length: partial.logical_length,
                                        bytes: output,
                                        bytes_read: partial.bytes_read,
                                    },
                                ),
                            ),
                        );
                    },
                    Ok(false) => {
                        self.output = output;
                        if pass + 1 < READ_PASSES {
                            self.phase = FlowPhase::Read { pass: pass + 1, refill };
                        } else {
                            self.end(Err(WorkerError::NotFound));
                        }
                    },
                }
            },
            (Ok(_), None) => {},
        }
    }
}

} // verus!
