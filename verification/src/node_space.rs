//! The space that the node keeps for files, and what of its settings can change.
#[allow(unused_imports)]
use crate::arena::ArenaView;
use crate::arena::FileSpaceConsumption;
#[allow(unused_imports)]
use crate::bytes::{lemma_views_take, views};
#[allow(unused_imports)]
use crate::error::{arena_error_means, ArenaError};
use crate::error::{map_arena_error, WorkerError};
use crate::node::NodeState;
#[allow(unused_imports)]
use crate::node::NodeView;
#[allow(unused_imports)]
use crate::staging::range_views;
use vstd::prelude::*;

verus! {

/// How much is logged.
#[derive(Clone, Copy, Debug, PartialEq, Eq, Structural)]
pub enum LogLevel {
    Critical,
    Error,
    Warning,
    Info,
    Debug,
    Trace,
}

/// A setting that can be changed while the node runs.
#[derive(Clone, Copy, Debug, PartialEq, Eq, Structural)]
pub enum ConfigChange {
    /// How long what is staged from now on is kept, in nanoseconds.
    StagingTtl(u64),
    /// How much is logged from now on.
    LogLevel(LogLevel),
}

/// What comes of a changed setting.
#[derive(Clone, Copy, Debug, PartialEq, Eq, Structural)]
pub struct ConfigApplied {
    /// The version of the settings.
    pub version: u64,
    /// How much the process is to log from now on, where that changed.
    pub log_level: Option<LogLevel>,
}

/// What a changed setting does. Each change makes a new version of the settings.
pub open spec fn config_changed(
    before: NodeView,
    after: NodeView,
    change: ConfigChange,
    applied: Result<ConfigApplied, WorkerError>,
) -> bool {
    if before.config_version == u64::MAX {
        after == before && (applied matches Err(error) && error is ResourceExhausted)
    } else {
        let version = (before.config_version + 1) as u64;
        match change {
            ConfigChange::StagingTtl(staging_ttl) => {
                &&& after == (NodeView {
                    arena: ArenaView { staging_ttl, ..before.arena },
                    config_version: version,
                    ..before
                })
                &&& applied == Ok::<ConfigApplied, WorkerError>(
                    ConfigApplied { version, log_level: None },
                )
            },
            ConfigChange::LogLevel(level) => {
                &&& after == (NodeView { config_version: version, ..before })
                &&& applied == Ok::<ConfigApplied, WorkerError>(
                    ConfigApplied { version, log_level: Some(level) },
                )
            },
        }
    }
}

/// The arena after space was put back piece by piece, up to the first piece that could not be put
/// back, and why it could not.
pub open spec fn restored_in_turn(arena: ArenaView, pieces: Seq<(Seq<u8>, u64)>) -> (
    ArenaView,
    Option<ArenaError>,
)
    decreases pieces.len(),
{
    if pieces.len() == 0 {
        (arena, None)
    } else {
        let (earlier, fault) = restored_in_turn(arena, pieces.drop_last());
        if fault is Some {
            (earlier, fault)
        } else {
            match earlier.restored(pieces.last().0, pieces.last().1) {
                Ok(next) => (next, None),
                Err(error) => (earlier, Some(error)),
            }
        }
    }
}

/// The arena after space was given up piece by piece, up to the first piece that could not be
/// given up, and why it could not.
pub open spec fn released_in_turn(arena: ArenaView, pieces: Seq<(Seq<u8>, u64)>) -> (
    ArenaView,
    Option<ArenaError>,
)
    decreases pieces.len(),
{
    if pieces.len() == 0 {
        (arena, None)
    } else {
        let (earlier, fault) = released_in_turn(arena, pieces.drop_last());
        if fault is Some {
            (earlier, fault)
        } else {
            match earlier.released(pieces.last().0, pieces.last().1) {
                Ok(next) => (next, None),
                Err(error) => (earlier, Some(error)),
            }
        }
    }
}

/// Whether the answer to a request tells what went wrong with the memory, if anything did.
pub open spec fn tells(fault: Option<ArenaError>, answer: Result<(), WorkerError>) -> bool {
    match (fault, answer) {
        (None, Ok(_)) => true,
        (Some(fault), Err(error)) => arena_error_means(fault, error),
        _ => false,
    }
}

proof fn lemma_restore_stops(arena: ArenaView, pieces: Seq<(Seq<u8>, u64)>, done: int)
    requires
        0 <= done <= pieces.len(),
        restored_in_turn(arena, pieces.take(done)).1 is Some,
    ensures
        restored_in_turn(arena, pieces) == restored_in_turn(arena, pieces.take(done)),
    decreases pieces.len() - done,
{
    if done < pieces.len() {
        assert(pieces.take(done + 1).drop_last() =~= pieces.take(done));
        lemma_restore_stops(arena, pieces, done + 1);
    } else {
        assert(pieces.take(done) =~= pieces);
    }
}

proof fn lemma_release_stops(arena: ArenaView, pieces: Seq<(Seq<u8>, u64)>, done: int)
    requires
        0 <= done <= pieces.len(),
        released_in_turn(arena, pieces.take(done)).1 is Some,
    ensures
        released_in_turn(arena, pieces) == released_in_turn(arena, pieces.take(done)),
    decreases pieces.len() - done,
{
    if done < pieces.len() {
        assert(pieces.take(done + 1).drop_last() =~= pieces.take(done));
        lemma_release_stops(arena, pieces, done + 1);
    } else {
        assert(pieces.take(done) =~= pieces);
    }
}

/// The bytes of some pieces together.
pub open spec fn pieces_sum(pieces: Seq<(Seq<u8>, u64)>) -> nat
    decreases pieces.len(),
{
    if pieces.len() == 0 {
        0
    } else {
        pieces_sum(pieces.drop_last()) + pieces.last().1 as nat
    }
}

/// Pieces that are all put back, or all given up, count together: what is used grows or shrinks by
/// their sum. Blocks and staged payloads are not touched, whatever comes of it.
pub proof fn pieces_count_together(arena: ArenaView, pieces: Seq<(Seq<u8>, u64)>)
    requires
        arena.wf(),
    ensures
        ({
            let (next, fault) = restored_in_turn(arena, pieces);
            &&& fault is None ==> next.used == arena.used + pieces_sum(pieces)
            &&& next.used <= arena.capacity
            &&& next.blocks == arena.blocks
            &&& next.stagings == arena.stagings
            &&& next.reservations.dom() == arena.reservations.dom()
        }),
        released_in_turn(arena, pieces).0.blocks == arena.blocks,
        released_in_turn(arena, pieces).0.stagings == arena.stagings,
    decreases pieces.len(),
{
    if pieces.len() > 0 {
        pieces_count_together(arena, pieces.drop_last());
        let (earlier, fault) = restored_in_turn(arena, pieces.drop_last());
        lemma_capacity_stays(arena, pieces.drop_last());
        let next = restored_in_turn(arena, pieces).0;
        assert(next.reservations.dom() =~= arena.reservations.dom());
    }
}

proof fn lemma_capacity_stays(arena: ArenaView, pieces: Seq<(Seq<u8>, u64)>)
    ensures
        restored_in_turn(arena, pieces).0.capacity == arena.capacity,
    decreases pieces.len(),
{
    if pieces.len() > 0 {
        lemma_capacity_stays(arena, pieces.drop_last());
    }
}

/// Every change of a setting makes the next version of the settings, sets what it names to what it
/// says, and changes nothing else. Only a change of how much is logged is handed on.
pub proof fn a_changed_setting_makes_a_version(
    before: NodeView,
    after: NodeView,
    change: ConfigChange,
    applied: Result<ConfigApplied, WorkerError>,
)
    requires
        config_changed(before, after, change, applied),
    ensures
        applied is Ok <==> before.config_version < u64::MAX,
        applied matches Ok(told) ==> {
            &&& told.version == before.config_version + 1
            &&& after.config_version == told.version
            &&& change matches ConfigChange::StagingTtl(ttl) ==> after.arena.staging_ttl == ttl
                && told.log_level is None
            &&& change matches ConfigChange::LogLevel(level) ==> after.arena == before.arena
                && told.log_level == Some(level)
            &&& after.arena.blocks == before.arena.blocks
            &&& after.arena.stagings == before.arena.stagings
            &&& after.arena.used == before.arena.used
            &&& after.sessions == before.sessions
            &&& after.cache == before.cache
        },
        applied is Err ==> after == before,
{
}

/// Space that is taken out of a reservation and put back leaves the arena as it was.
pub proof fn restoring_undoes_consuming(arena: ArenaView, reservation_id: Seq<u8>, length: u64)
    requires
        arena.wf(),
        arena.consumed(reservation_id, length) is Ok,
    ensures
        arena.consumed(reservation_id, length)->Ok_0.restored(reservation_id, length) == Ok::<
            ArenaView,
            ArenaError,
        >(arena),
{
    crate::table::lemma_total_remove(
        arena.reservations,
        crate::arena::reservation_weight(),
        reservation_id,
    );
    let taken = arena.consumed(reservation_id, length)->Ok_0;
    assert(taken.reservations.insert(reservation_id, arena.reservations[reservation_id])
        =~= arena.reservations);
}

impl NodeState {
    /// Sets space aside for a file.
    pub fn reserve_file_space(&mut self, reservation_id: Vec<u8>, length: u64) -> (reserved: Result<
        (),
        WorkerError,
    >)
        requires
            old(self)@.wf(),
        ensures
            final(self)@.wf(),
            match old(self)@.arena.reserved(reservation_id@, length) {
                Ok(arena) => reserved is Ok && final(self)@ == (NodeView { arena, ..old(self)@ }),
                Err(fault) => tells(Some(fault), reserved) && final(self)@ == old(self)@,
            },
    {
        match self.arena.reserve_file_space(reservation_id, length) {
            Ok(_) => Ok(()),
            Err(error) => Err(map_arena_error(error)),
        }
    }

    /// Takes space out of several reservations, or out of none.
    pub fn consume_file_space(&mut self, ranges: &Vec<(Vec<u8>, u64)>) -> (consumed: Result<
        Vec<FileSpaceConsumption>,
        WorkerError,
    >)
        requires
            old(self)@.wf(),
        ensures
            final(self)@.wf(),
            match (old(self)@.arena.consumed_all(range_views(ranges@)), consumed) {
                (Ok(arena), Ok(consumptions)) => final(self)@ == (NodeView { arena, ..old(self)@ })
                    && views(consumptions@) == range_views(ranges@),
                (Err(fault), Err(error)) => final(self)@ == old(self)@ && arena_error_means(
                    fault,
                    error,
                ),
                _ => false,
            },
    {
        match self.arena.consume_file_ranges(ranges) {
            Ok(consumptions) => Ok(consumptions),
            Err(error) => Err(map_arena_error(error)),
        }
    }

    /// Puts consumed space back, piece by piece, up to the first piece that cannot be put back.
    pub fn restore_file_space(&mut self, consumptions: &Vec<FileSpaceConsumption>) -> (restored: Result<
        (),
        WorkerError,
    >)
        requires
            old(self)@.wf(),
        ensures
            final(self)@.wf(),
            final(self)@ == (NodeView {
                arena: restored_in_turn(old(self)@.arena, views(consumptions@)).0,
                ..old(self)@
            }),
            tells(restored_in_turn(old(self)@.arena, views(consumptions@)).1, restored),
    {
        let ghost before = self@;
        let ghost pieces = views(consumptions@);
        let mut i: usize = 0;
        assert(pieces.take(0) =~= Seq::empty());
        while i < consumptions.len()
            invariant
                i <= consumptions@.len(),
                pieces == views(consumptions@),
                before == old(self)@,
                self@.wf(),
                self@ == (NodeView { arena: self@.arena, ..before }),
                restored_in_turn(before.arena, pieces.take(i as int)) == (
                    self@.arena,
                    None::<ArenaError>,
                ),
            decreases consumptions.len() - i,
        {
            proof {
                lemma_views_take(consumptions@, i as int);
                assert(pieces.take(i + 1).drop_last() =~= pieces.take(i as int));
            }
            match self.arena.restore_file_space(&consumptions[i]) {
                Ok(_) => {},
                Err(error) => {
                    proof {
                        lemma_restore_stops(before.arena, pieces, i + 1);
                    }
                    return Err(map_arena_error(error));
                },
            }
            i = i + 1;
        }
        assert(pieces.take(i as int) =~= pieces);
        Ok(())
    }

    /// Gives reserved space up, piece by piece, up to the first piece that cannot be given up.
    pub fn release_file_space(&mut self, ranges: &Vec<(Vec<u8>, u64)>) -> (released: Result<
        (),
        WorkerError,
    >)
        requires
            old(self)@.wf(),
        ensures
            final(self)@.wf(),
            final(self)@ == (NodeView {
                arena: released_in_turn(old(self)@.arena, range_views(ranges@)).0,
                ..old(self)@
            }),
            tells(released_in_turn(old(self)@.arena, range_views(ranges@)).1, released),
    {
        let ghost before = self@;
        let ghost pieces = range_views(ranges@);
        let mut i: usize = 0;
        assert(pieces.take(0) =~= Seq::empty());
        while i < ranges.len()
            invariant
                i <= ranges@.len(),
                pieces == range_views(ranges@),
                before == old(self)@,
                self@.wf(),
                self@ == (NodeView { arena: self@.arena, ..before }),
                released_in_turn(before.arena, pieces.take(i as int)) == (
                    self@.arena,
                    None::<ArenaError>,
                ),
            decreases ranges.len() - i,
        {
            proof {
                assert(pieces.take(i + 1).drop_last() =~= pieces.take(i as int));
                assert(pieces.take(i + 1).last() == pieces[i as int]);
            }
            match self.arena.release_file_space(&ranges[i].0, ranges[i].1) {
                Ok(_) => {},
                Err(error) => {
                    proof {
                        lemma_release_stops(before.arena, pieces, i + 1);
                    }
                    return Err(map_arena_error(error));
                },
            }
            i = i + 1;
        }
        assert(pieces.take(i as int) =~= pieces);
        Ok(())
    }

    /// Takes a changed setting and returns the version that the settings have with it.
    pub fn apply_config_change(&mut self, change: ConfigChange) -> (applied: Result<
        ConfigApplied,
        WorkerError,
    >)
        requires
            old(self)@.wf(),
        ensures
            final(self)@.wf(),
            config_changed(old(self)@, final(self)@, change, applied),
    {
        let ghost before = self@;
        if self.config_version == u64::MAX {
            return Err(WorkerError::ResourceExhausted);
        }
        self.config_version = self.config_version + 1;
        let log_level: Option<LogLevel> = match change {
            ConfigChange::StagingTtl(staging_ttl) => {
                self.arena.staging_ttl = staging_ttl;
                None
            },
            ConfigChange::LogLevel(level) => Some(level),
        };
        proof {
            assert forall|id: Seq<u8>| #[trigger]
                self@.arena.blocks.contains_key(id) implies self@.arena.block_wf(id) by {
                assert(before.arena.block_wf(id));
            }
            assert forall|id: u64| #[trigger]
                self@.arena.stagings.contains_key(id) implies self@.arena.staging_wf(id) by {
                assert(before.arena.staging_wf(id));
            }
        }
        Ok(ConfigApplied { version: self.config_version, log_level })
    }
}

} // verus!
