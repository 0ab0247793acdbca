//! Replicas that the node is asked to take over: prepared, then activated, or aborted.
use crate::arena::Arena;
#[allow(unused_imports)]
use crate::arena::ArenaView;
use crate::bytes::{copy_bytes, same_bytes};
use crate::digest::digest;
#[allow(unused_imports)]
use crate::digest::sha256_of;
#[allow(unused_imports)]
use crate::error::{arena_error_means, ArenaError};
use crate::error::{map_arena_error, WorkerError};
#[allow(unused_imports)]
use crate::session::each;
use crate::staging::moment_after;
#[allow(unused_imports)]
use crate::staging::later;
use crate::peer_import::PeerPullSpec;
#[allow(unused_imports)]
use crate::peer_import::{PullSpecView, SourceView};
use crate::table::Table;
use vstd::prelude::*;

verus! {

/// How long a prepared replica waits to be activated: thirty seconds.
pub const PREPARED_REPLICA_TTL: u64 = 30_000_000_000;

/// A replica whose bytes are here but cannot be read yet.
#[derive(Debug, PartialEq, Eq)]
pub struct PreparedReplica {
    pub block_id: Vec<u8>,
    pub bytes: Vec<u8>,
    pub checksum: Vec<u8>,
    pub length: u64,
    pub expires_at: u64,
}

/// A replica whose transfer has ended.
#[derive(Debug, PartialEq, Eq)]
pub struct FinishedReplica {
    pub block_id: Vec<u8>,
    pub checksum: Vec<u8>,
    pub length: u64,
    /// Whether the transfer brought the block, which was not here before.
    pub owns_block: bool,
}

/// How far a transfer has come.
#[derive(Debug, PartialEq, Eq)]
pub enum ReplicaTransferState {
    Prepared(PreparedReplica),
    Active(FinishedReplica),
    Aborted(FinishedReplica),
}

/// How far a transfer has come, as a value.
#[verifier::ext_equal]
pub enum TransferView {
    Prepared {
        block_id: Seq<u8>,
        bytes: Seq<u8>,
        checksum: Seq<u8>,
        length: u64,
        expires_at: u64,
    },
    Active { block_id: Seq<u8>, checksum: Seq<u8>, length: u64, owns_block: bool },
    Aborted { block_id: Seq<u8>, checksum: Seq<u8>, length: u64, owns_block: bool },
}

impl View for ReplicaTransferState {
    type V = TransferView;

    open spec fn view(&self) -> TransferView {
        match *self {
            ReplicaTransferState::Prepared(replica) => TransferView::Prepared {
                block_id: replica.block_id@,
                bytes: replica.bytes@,
                checksum: replica.checksum@,
                length: replica.length,
                expires_at: replica.expires_at,
            },
            ReplicaTransferState::Active(replica) => TransferView::Active {
                block_id: replica.block_id@,
                checksum: replica.checksum@,
                length: replica.length,
                owns_block: replica.owns_block,
            },
            ReplicaTransferState::Aborted(replica) => TransferView::Aborted {
                block_id: replica.block_id@,
                checksum: replica.checksum@,
                length: replica.length,
                owns_block: replica.owns_block,
            },
        }
    }
}

/// What a caller is told of a transfer.
#[derive(Debug, PartialEq, Eq)]
pub struct ReplicaStateView {
    pub plan_id: Vec<u8>,
    pub block_id: Vec<u8>,
    pub status: &'static str,
    pub length: u64,
    pub checksum: Vec<u8>,
}

/// What a caller is told of a transfer, as a value.
#[verifier::ext_equal]
pub struct ReplicaStateValue {
    pub plan_id: Seq<u8>,
    pub block_id: Seq<u8>,
    pub status: Seq<char>,
    pub length: u64,
    pub checksum: Seq<u8>,
}

impl View for ReplicaStateView {
    type V = ReplicaStateValue;

    open spec fn view(&self) -> ReplicaStateValue {
        ReplicaStateValue {
            plan_id: self.plan_id@,
            block_id: self.block_id@,
            status: self.status@,
            length: self.length,
            checksum: self.checksum@,
        }
    }
}

/// What a caller is told of a transfer.
pub fn replica_view(
    plan_id: &[u8],
    block_id: &[u8],
    status: &'static str,
    length: u64,
    checksum: &[u8],
) -> (view: ReplicaStateView)
    ensures
        view@ == (ReplicaStateValue {
            plan_id: plan_id@,
            block_id: block_id@,
            status: status@,
            length,
            checksum: checksum@,
        }),
{
    ReplicaStateView {
        plan_id: copy_bytes(plan_id),
        block_id: copy_bytes(block_id),
        status,
        length,
        checksum: copy_bytes(checksum),
    }
}

/// A replica that this node is asked to hold, and where it can be had.
#[derive(Debug, PartialEq, Eq)]
pub struct ReplicaPrepareSpec {
    pub plan_id: Vec<u8>,
    pub source_node_id: String,
    pub source_endpoint: String,
    pub block_id: Vec<u8>,
    pub expected_checksum: Vec<u8>,
    pub expected_length: u64,
}

impl ReplicaPrepareSpec {
    /// Fails where the plan, the source or the block has no name.
    pub fn validate(&self) -> (valid: Result<(), WorkerError>)
        ensures
            match valid {
                Ok(_) => self.plan_id@.len() > 0 && self.source_endpoint@.len() > 0
                    && self.block_id@.len() > 0,
                Err(error) => (self.plan_id@.len() == 0 || self.source_endpoint@.len() == 0
                    || self.block_id@.len() == 0) && error == WorkerError::InvalidArgument(
                    "plan id, source endpoint and block id are required",
                ),
            },
    {
        if self.plan_id.len() == 0 || self.source_endpoint.as_str().is_empty() || self.block_id.len() == 0 {
            return Err(
                WorkerError::InvalidArgument("plan id, source endpoint and block id are required"),
            );
        }
        Ok(())
    }

    /// The block to pull.
    pub fn pull_spec(&self) -> (spec: PeerPullSpec)
        ensures
            spec@ == (PullSpecView {
                sources: seq![
                    SourceView { node_id: 0, node_epoch: 0, endpoint: self.source_endpoint@ },
                ],
                block_id: self.block_id@,
                expected_checksum: self.expected_checksum@,
                expected_length: self.expected_length,
            }),
    {
        PeerPullSpec::single_source(
            self.source_endpoint.clone(),
            copy_bytes(&self.block_id),
            copy_bytes(&self.expected_checksum),
            self.expected_length,
        )
    }
}

impl TransferView {
    /// What a caller is told.
    pub open spec fn told(self, plan_id: Seq<u8>) -> ReplicaStateValue {
        match self {
            TransferView::Prepared { block_id, bytes, checksum, length, expires_at } =>
                ReplicaStateValue {
                plan_id,
                block_id,
                status: "prepared"@,
                length,
                checksum,
            },
            TransferView::Active { block_id, checksum, length, owns_block } => ReplicaStateValue {
                plan_id,
                block_id,
                status: "active"@,
                length,
                checksum,
            },
            TransferView::Aborted { block_id, checksum, length, owns_block } => ReplicaStateValue {
                plan_id,
                block_id,
                status: "aborted"@,
                length,
                checksum,
            },
        }
    }

    /// Whether the transfer is for these bytes.
    pub open spec fn is_for(self, block_id: Seq<u8>, checksum: Seq<u8>, length: u64) -> bool {
        let told = self.told(Seq::empty());
        told.block_id == block_id && told.checksum == checksum && told.length == length
    }

    /// Whether the bytes of a prepared replica are what its record says.
    pub open spec fn wf(self) -> bool {
        self matches TransferView::Prepared { bytes, checksum, length, .. } ==> {
            &&& bytes.len() == length
            &&& checksum.len() > 0 ==> checksum == sha256_of(bytes)
        }
    }
}

/// Whether every transfer's record is right.
pub open spec fn transfers_wf(transfers: Map<Seq<u8>, TransferView>) -> bool {
    forall|plan_id: Seq<u8>| #[trigger]
        transfers.contains_key(plan_id) ==> transfers[plan_id].wf()
}

/// What is wrong with a replica that is offered.
pub open spec fn offer_fault(
    transfers: Map<Seq<u8>, TransferView>,
    plan_id: Seq<u8>,
    block_id: Seq<u8>,
    bytes: Seq<u8>,
    checksum: Seq<u8>,
    length: u64,
) -> bool {
    ||| plan_id.len() == 0 || block_id.len() == 0 || length != bytes.len()
    ||| checksum.len() > 0 && sha256_of(bytes) != checksum
    ||| transfers.contains_key(plan_id) && (transfers[plan_id] is Aborted
        || !transfers[plan_id].is_for(block_id, checksum, length))
}

/// The transfers after a replica was prepared. One that is already under way stays as it is.
pub open spec fn prepared(
    transfers: Map<Seq<u8>, TransferView>,
    plan_id: Seq<u8>,
    block_id: Seq<u8>,
    bytes: Seq<u8>,
    checksum: Seq<u8>,
    length: u64,
    now: u64,
) -> Map<Seq<u8>, TransferView> {
    if transfers.contains_key(plan_id) {
        transfers
    } else {
        transfers.insert(
            plan_id,
            TransferView::Prepared {
                block_id,
                bytes,
                checksum,
                length,
                expires_at: later(now, PREPARED_REPLICA_TTL),
            },
        )
    }
}

/// A transfer whose block was stored.
pub open spec fn activated(transfer: TransferView, arena: ArenaView) -> TransferView {
    match transfer {
        TransferView::Prepared { block_id, checksum, length, .. } => TransferView::Active {
            block_id,
            checksum,
            length,
            owns_block: !arena.blocks.contains_key(block_id),
        },
        other => other,
    }
}

/// The transfer after it was aborted.
pub open spec fn aborted(transfer: TransferView) -> TransferView {
    match transfer {
        TransferView::Prepared { block_id, checksum, length, .. } => TransferView::Aborted {
            block_id,
            checksum,
            length,
            owns_block: false,
        },
        other => other,
    }
}

/// The transfers after those that waited too long were aborted.
pub open spec fn lapsed_transfers(transfers: Map<Seq<u8>, TransferView>, now: u64) -> Map<
    Seq<u8>,
    TransferView,
> {
    each(
        transfers,
        |plan_id: Seq<u8>, transfer: TransferView|
            if transfer matches TransferView::Prepared { expires_at, .. } && expires_at <= now {
                aborted(transfer)
            } else {
                transfer
            },
    )
}

/// The digest under which a prepared replica is stored.
pub open spec fn stored_digest(bytes: Seq<u8>, checksum: Seq<u8>) -> Seq<u8> {
    if checksum.len() == 0 {
        sha256_of(bytes)
    } else {
        checksum
    }
}

/// The transfers.
pub struct Replicas {
    pub transfers: Table<Vec<u8>, ReplicaTransferState>,
}

impl View for Replicas {
    type V = Map<Seq<u8>, TransferView>;

    open spec fn view(&self) -> Map<Seq<u8>, TransferView> {
        self.transfers@
    }
}

/// What a caller is told of a transfer.
fn tell(plan_id: &Vec<u8>, state: &ReplicaTransferState) -> (view: ReplicaStateView)
    ensures
        view@ == state@.told(plan_id@),
{
    match state {
        ReplicaTransferState::Prepared(replica) => replica_view(
            plan_id,
            &replica.block_id,
            "prepared",
            replica.length,
            &replica.checksum,
        ),
        ReplicaTransferState::Active(replica) => replica_view(
            plan_id,
            &replica.block_id,
            "active",
            replica.length,
            &replica.checksum,
        ),
        ReplicaTransferState::Aborted(replica) => replica_view(
            plan_id,
            &replica.block_id,
            "aborted",
            replica.length,
            &replica.checksum,
        ),
    }
}

/// An aborted replica cannot be activated, and an active one cannot be aborted.
pub proof fn ended_transfers_stay_ended(transfer: TransferView, arena: ArenaView)
    ensures
        transfer is Aborted ==> activated(transfer, arena) == transfer,
        transfer is Active ==> aborted(transfer) == transfer && activated(transfer, arena)
            == transfer,
{
}

/// What preparing a replica does.
pub open spec fn replica_prepared(
    before: Map<Seq<u8>, TransferView>,
    after: Map<Seq<u8>, TransferView>,
    plan_id: Seq<u8>,
    block_id: Seq<u8>,
    bytes: Seq<u8>,
    checksum: Seq<u8>,
    length: u64,
    now: u64,
    told: Result<ReplicaStateView, WorkerError>,
) -> bool {
    match told {
        Ok(view) => {
            &&& !offer_fault(
                before,
                plan_id,
                block_id,
                bytes,
                checksum,
                length,
            )
            &&& after == prepared(
                before,
                plan_id,
                block_id,
                bytes,
                checksum,
                length,
                now,
            )
            &&& view@ == after[plan_id].told(plan_id)
        },
        Err(error) => {
            &&& offer_fault(before, plan_id, block_id, bytes, checksum, length)
            &&& error is Conflict
            &&& after == before
        },
    }
}

/// What activating a replica does.
pub open spec fn replica_activated(
    before: Map<Seq<u8>, TransferView>,
    after: Map<Seq<u8>, TransferView>,
    arena_before: ArenaView,
    arena_after: ArenaView,
    plan_id: Seq<u8>,
    told: Result<ReplicaStateView, WorkerError>,
) -> bool {
    match told {
        Ok(view) => {
            &&& before.contains_key(plan_id)
            &&& !(before[plan_id] is Aborted)
            &&& after =~= before.insert(
                plan_id,
                activated(before[plan_id], arena_before),
            )
            &&& view@ == after[plan_id].told(plan_id)
            &&& match before[plan_id] {
                TransferView::Prepared { block_id, bytes, checksum, .. } => arena_before.stored(block_id, bytes, stored_digest(bytes, checksum)) == Ok::<
                    ArenaView,
                    ArenaError,
                >(arena_after),
                _ => arena_after == arena_before,
            }
        },
        Err(error) => {
            &&& arena_after == arena_before
            &&& if !before.contains_key(plan_id) {
                error is NotFound && after =~= before
            } else if before[plan_id] is Aborted {
                error is Conflict && after =~= before
            } else {
                &&& before[plan_id] matches TransferView::Prepared {
                    block_id,
                    bytes,
                    checksum,
                    ..
                }
                &&& arena_before.stored(
                    block_id,
                    bytes,
                    stored_digest(bytes, checksum),
                ) matches Err(fault)
                &&& arena_error_means(fault, error)
                &&& after =~= before.remove(plan_id)
            }
        },
    }
}

/// What aborting a replica does.
pub open spec fn replica_aborted(
    before: Map<Seq<u8>, TransferView>,
    after: Map<Seq<u8>, TransferView>,
    plan_id: Seq<u8>,
    told: Result<ReplicaStateView, WorkerError>,
) -> bool {
    match told {
        Ok(view) => {
            &&& before.contains_key(plan_id)
            &&& !(before[plan_id] is Active)
            &&& after == before.insert(plan_id, aborted(before[plan_id]))
            &&& view@ == after[plan_id].told(plan_id)
        },
        Err(error) => {
            &&& after == before
            &&& if !before.contains_key(plan_id) {
                error is NotFound
            } else {
                error is Conflict && before[plan_id] is Active
            }
        },
    }
}

/// What discarding an attempt does.
pub open spec fn replica_discarded(
    before: Map<Seq<u8>, TransferView>,
    after: Map<Seq<u8>, TransferView>,
    arena_before: ArenaView,
    arena_after: ArenaView,
    plan_id: Seq<u8>,
    discarded: Result<(), WorkerError>,
) -> bool {
    match discarded {
        Ok(_) => {
            &&& before.contains_key(plan_id)
            &&& after == before.remove(plan_id)
            &&& arena_after == (match before[plan_id] {
                TransferView::Active { block_id, owns_block: true, .. } => arena_before.retired(block_id),
                _ => arena_before,
            })
        },
        Err(error) => {
            &&& !before.contains_key(plan_id)
            &&& error is NotFound
            &&& after == before
            &&& arena_after == arena_before
        },
    }
}

/// A replica is taken if it and its block have names, its bytes are as many as announced and have the
/// checksum that was announced, and nothing else was offered under its name or aborted. It then waits
/// with exactly these bytes for thirty seconds. One that is there already stays as it is, and no other
/// is touched.
pub proof fn an_offered_replica_waits_with_its_bytes(
    before: Map<Seq<u8>, TransferView>,
    after: Map<Seq<u8>, TransferView>,
    plan_id: Seq<u8>,
    block_id: Seq<u8>,
    bytes: Seq<u8>,
    checksum: Seq<u8>,
    length: u64,
    now: u64,
    told: Result<ReplicaStateView, WorkerError>,
    other: Seq<u8>,
)
    requires
        now + 30_000_000_000 <= u64::MAX,
        replica_prepared(
            before,
            after,
            plan_id,
            block_id,
            bytes,
            checksum,
            length,
            now,
            told,
        ),
    ensures
        !before.contains_key(plan_id) ==> (told is Ok <==> plan_id.len() > 0 && block_id.len() > 0
            && length == bytes.len() && (checksum.len() == 0 || checksum == sha256_of(bytes))),
        told is Ok && !before.contains_key(plan_id) ==> after.contains_key(plan_id)
            && after[plan_id] == (TransferView::Prepared {
            block_id,
            bytes,
            checksum,
            length,
            expires_at: (now + 30_000_000_000) as u64,
        }),
        told is Ok && before.contains_key(plan_id) ==> after == before,
        told is Err ==> after == before,
        told matches Ok(view) ==> view@.plan_id == plan_id && view@.block_id == block_id
            && view@.length == length && view@.checksum == checksum,
        other != plan_id ==> after.contains_key(other) == before.contains_key(other)
            && after[other] == before[other],
{
}

/// An attempt that is discarded is forgotten, and its block goes if and only if the attempt made it.
/// No other attempt and no other block is touched. A prepared replica that waited too long is
/// aborted, and no other changes with time.
pub proof fn a_discarded_attempt_takes_only_its_own_block(
    before: Map<Seq<u8>, TransferView>,
    after: Map<Seq<u8>, TransferView>,
    arena: ArenaView,
    arena_after: ArenaView,
    plan_id: Seq<u8>,
    discarded: Result<(), WorkerError>,
    now: u64,
    other: Seq<u8>,
    block: Seq<u8>,
)
    requires
        arena.wf(),
        replica_discarded(before, after, arena, arena_after, plan_id, discarded),
    ensures
        discarded is Ok <==> before.contains_key(plan_id),
        discarded is Ok ==> !after.contains_key(plan_id),
        discarded is Err ==> after == before && arena_after == arena,
        other != plan_id ==> after.contains_key(other) == before.contains_key(other)
            && after[other] == before[other],
        arena.blocks.contains_key(block) && !arena_after.blocks.contains_key(block)
            ==> (before[plan_id] matches TransferView::Active { block_id, owns_block: true, .. }
            && block_id == block),
        before.contains_key(plan_id) ==> (before[plan_id] matches TransferView::Active {
            block_id,
            owns_block: true,
            ..
        } ==> !arena_after.blocks.contains_key(block_id)),
        lapsed_transfers(before, now).contains_key(other) == before.contains_key(other),
        before.contains_key(other) ==> (if before[other] is Prepared && before[other]->expires_at
            <= now {
            lapsed_transfers(before, now)[other] is Aborted
        } else {
            lapsed_transfers(before, now)[other] == before[other]
        }),
{
}

/// A replica that was prepared can be activated while it has not waited too long and the arena has
/// room for it, whatever became of other replicas, and then its block reads back as the bytes that
/// came. To activate it again changes nothing and tells the same; it can no longer be aborted.
pub proof fn a_prepared_replica_becomes_readable(
    offered: Map<Seq<u8>, TransferView>,
    waiting: Map<Seq<u8>, TransferView>,
    plan_id: Seq<u8>,
    block_id: Seq<u8>,
    bytes: Seq<u8>,
    checksum: Seq<u8>,
    length: u64,
    now: u64,
    preparing: Result<ReplicaStateView, WorkerError>,
    tick: u64,
    later: Map<Seq<u8>, TransferView>,
    arena: ArenaView,
    active: Map<Seq<u8>, TransferView>,
    holding: ArenaView,
    activating: Result<ReplicaStateView, WorkerError>,
    again: Map<Seq<u8>, TransferView>,
    holding_again: ArenaView,
    activating_again: Result<ReplicaStateView, WorkerError>,
    kept: Map<Seq<u8>, TransferView>,
    aborting: Result<ReplicaStateView, WorkerError>,
)
    requires
        transfers_wf(offered),
        replica_prepared(
            offered,
            waiting,
            plan_id,
            block_id,
            bytes,
            checksum,
            length,
            now,
            preparing,
        ),
        preparing matches Ok(view) && view@.status == "prepared"@,
        waiting[plan_id] matches TransferView::Prepared { bytes: held, expires_at, .. } && held
            == bytes && tick < expires_at,
        later.contains_key(plan_id) && later[plan_id] == waiting[plan_id],
        arena.wf(),
        arena.stored(block_id, bytes, stored_digest(bytes, checksum)) is Ok,
        arena.blocks.contains_key(block_id) ==> arena.block_bytes(block_id) == bytes,
        replica_activated(later, active, arena, holding, plan_id, activating),
        replica_activated(active, again, holding, holding_again, plan_id, activating_again),
        replica_aborted(active, kept, plan_id, aborting),
    ensures
        activating matches Ok(view) && view@ == (ReplicaStateValue {
            plan_id,
            block_id,
            status: "active"@,
            length,
            checksum,
        }),
        holding.opened(block_id, None) matches Ok((ticket, size)) && size == length
            && holding.ticket_bytes(ticket) == Ok::<Seq<u8>, ArenaError>(bytes),
        activating_again matches Ok(view) && view@ == activating->Ok_0@,
        again == active && holding_again == holding,
        aborting matches Err(error) && error is Conflict,
        kept == active,
        lapsed_transfers(waiting, tick).contains_key(plan_id),
        lapsed_transfers(waiting, tick)[plan_id] == waiting[plan_id],
{
    reveal_strlit("prepared");
    reveal_strlit("active");
    reveal_strlit("aborted");
    assert(bytes.subrange(0, bytes.len() as int) =~= bytes);
    if arena.blocks.contains_key(block_id) {
        assert(arena.block_wf(block_id));
    }
    assert(again =~= active);
}

/// A replica that was aborted, or waited too long, never becomes a block: it cannot be activated or
/// prepared again, and to abort it again or to let time pass changes nothing.
pub proof fn an_aborted_replica_never_becomes_readable(
    waiting: Map<Seq<u8>, TransferView>,
    plan_id: Seq<u8>,
    ended: Map<Seq<u8>, TransferView>,
    aborting: Result<ReplicaStateView, WorkerError>,
    tick: u64,
    arena: ArenaView,
    active: Map<Seq<u8>, TransferView>,
    holding: ArenaView,
    activating: Result<ReplicaStateView, WorkerError>,
    block_id: Seq<u8>,
    bytes: Seq<u8>,
    checksum: Seq<u8>,
    length: u64,
    now: u64,
    prepared_again: Map<Seq<u8>, TransferView>,
    preparing: Result<ReplicaStateView, WorkerError>,
)
    requires
        waiting.contains_key(plan_id),
        waiting[plan_id] is Prepared,
        replica_aborted(waiting, ended, plan_id, aborting) || (ended == lapsed_transfers(
            waiting,
            tick,
        ) && waiting[plan_id]->expires_at <= tick),
        replica_activated(ended, active, arena, holding, plan_id, activating),
        replica_prepared(
            ended,
            prepared_again,
            plan_id,
            block_id,
            bytes,
            checksum,
            length,
            now,
            preparing,
        ),
    ensures
        ended.contains_key(plan_id) && ended[plan_id] is Aborted,
        activating matches Err(error) && error is Conflict,
        active == ended && holding == arena,
        preparing matches Err(error) && error is Conflict,
        prepared_again == ended,
        lapsed_transfers(ended, now).contains_key(plan_id),
        lapsed_transfers(ended, now)[plan_id] == ended[plan_id],
        aborted(ended[plan_id]) == ended[plan_id],
{
    assert(active =~= ended);
}

/// Of a replica that was never prepared nothing is known: it can be neither activated nor aborted.
pub proof fn an_unknown_replica_is_not_found(
    transfers: Map<Seq<u8>, TransferView>,
    plan_id: Seq<u8>,
    arena: ArenaView,
    active: Map<Seq<u8>, TransferView>,
    holding: ArenaView,
    activating: Result<ReplicaStateView, WorkerError>,
    ended: Map<Seq<u8>, TransferView>,
    aborting: Result<ReplicaStateView, WorkerError>,
)
    requires
        !transfers.contains_key(plan_id),
        replica_activated(transfers, active, arena, holding, plan_id, activating),
        replica_aborted(transfers, ended, plan_id, aborting),
    ensures
        activating matches Err(error) && error is NotFound,
        active == transfers && holding == arena,
        aborting matches Err(error) && error is NotFound,
        ended == transfers,
{
    assert(active =~= transfers);
}

impl Replicas {
    /// No transfers.
    pub fn new() -> (replicas: Self)
        ensures
            replicas@ == Map::<Seq<u8>, TransferView>::empty(),
            transfers_wf(replicas@),
    {
        Replicas { transfers: Table::new() }
    }

    /// Takes the bytes of a replica, which cannot be read before it is activated. To prepare
    /// the same replica again changes nothing.
    pub fn prepare_replica(
        &mut self,
        plan_id: Vec<u8>,
        block_id: Vec<u8>,
        bytes: Vec<u8>,
        checksum: Vec<u8>,
        length: u64,
        now: u64,
    ) -> (told: Result<ReplicaStateView, WorkerError>)
        requires
            transfers_wf(old(self)@),
        ensures
            transfers_wf(final(self)@),
            replica_prepared(old(self)@, final(self)@, plan_id@, block_id@, bytes@, checksum@, length, now, told),
    {
        if plan_id.len() == 0 || block_id.len() == 0 || length != bytes.len() as u64 {
            return Err(WorkerError::Conflict);
        }
        if checksum.len() > 0 && !same_bytes(&digest(&bytes), &checksum) {
            return Err(WorkerError::Conflict);
        }
        match self.transfers.get(&plan_id) {
            Some(state) => {
                let same: bool = match state {
                    ReplicaTransferState::Prepared(replica) => same_bytes(
                        &replica.block_id,
                        &block_id,
                    ) && replica.length == length && same_bytes(&replica.checksum, &checksum),
                    ReplicaTransferState::Active(replica) => same_bytes(
                        &replica.block_id,
                        &block_id,
                    ) && replica.length == length && same_bytes(&replica.checksum, &checksum),
                    ReplicaTransferState::Aborted(_) => false,
                };
                if !same {
                    return Err(WorkerError::Conflict);
                }
                return Ok(tell(&plan_id, state));
            },
            None => {},
        }
        let incoming = ReplicaTransferState::Prepared(
            PreparedReplica {
                block_id,
                bytes,
                checksum,
                length,
                expires_at: moment_after(now, PREPARED_REPLICA_TTL),
            },
        );
        let view = tell(&plan_id, &incoming);
        self.transfers.insert(plan_id, incoming);
        Ok(view)
    }

    /// Makes a prepared replica a block that can be read. To activate it again changes nothing.
    pub fn activate_replica(&mut self, arena: &mut Arena, plan_id: &Vec<u8>) -> (told: Result<
        ReplicaStateView,
        WorkerError,
    >)
        requires
            transfers_wf(old(self)@),
            old(arena)@.wf(),
        ensures
            transfers_wf(final(self)@),
            final(arena)@.wf(),
            replica_activated(old(self)@, final(self)@, old(arena)@, final(arena)@, plan_id@, told),
    {
        let ghost before = self@;
        match self.transfers.remove(plan_id) {
            None => {
                assert(self@ =~= before);
                Err(WorkerError::NotFound)
            },
            Some(ReplicaTransferState::Prepared(replica)) => {
                assert(before[plan_id@].wf());
                let owns_block: bool = arena.block_allocation_id(&replica.block_id).is_none();
                let verified: Vec<u8> = if replica.checksum.len() == 0 {
                    digest(&replica.bytes)
                } else {
                    copy_bytes(&replica.checksum)
                };
                match arena.commit_inline_with_verified_digest(
                    copy_bytes(&replica.block_id),
                    replica.bytes,
                    verified,
                ) {
                    Ok(_) => {},
                    Err(error) => return Err(map_arena_error(error)),
                }
                let active = ReplicaTransferState::Active(
                    FinishedReplica {
                        block_id: replica.block_id,
                        checksum: replica.checksum,
                        length: replica.length,
                        owns_block,
                    },
                );
                let view = tell(plan_id, &active);
                let ghost next = active@;
                self.transfers.insert(copy_bytes(plan_id), active);
                assert(self@ =~= before.insert(plan_id@, next));
                Ok(view)
            },
            Some(ReplicaTransferState::Active(replica)) => {
                let active = ReplicaTransferState::Active(replica);
                let view = tell(plan_id, &active);
                self.transfers.insert(copy_bytes(plan_id), active);
                assert(self@ =~= before);
                Ok(view)
            },
            Some(ReplicaTransferState::Aborted(replica)) => {
                self.transfers.insert(
                    copy_bytes(plan_id),
                    ReplicaTransferState::Aborted(replica),
                );
                assert(self@ =~= before);
                Err(WorkerError::Conflict)
            },
        }
    }

    /// Gives a prepared replica up. To abort it again changes nothing; an active one stays.
    pub fn abort_replica(&mut self, plan_id: &Vec<u8>) -> (told: Result<
        ReplicaStateView,
        WorkerError,
    >)
        requires
            transfers_wf(old(self)@),
        ensures
            transfers_wf(final(self)@),
            replica_aborted(old(self)@, final(self)@, plan_id@, told),
    {
        let ghost before = self@;
        let replica: FinishedReplica = match self.transfers.remove(plan_id) {
            None => {
                assert(self@ =~= before);
                return Err(WorkerError::NotFound);
            },
            Some(ReplicaTransferState::Prepared(replica)) => FinishedReplica {
                block_id: replica.block_id,
                checksum: replica.checksum,
                length: replica.length,
                owns_block: false,
            },
            Some(ReplicaTransferState::Active(replica)) => {
                self.transfers.insert(copy_bytes(plan_id), ReplicaTransferState::Active(replica));
                assert(self@ =~= before);
                return Err(WorkerError::Conflict);
            },
            Some(ReplicaTransferState::Aborted(replica)) => replica,
        };
        let ended = ReplicaTransferState::Aborted(replica);
        let view = tell(plan_id, &ended);
        let ghost next = ended@;
        self.transfers.insert(copy_bytes(plan_id), ended);
        assert(self@ =~= before.insert(plan_id@, next));
        Ok(view)
    }

    /// Forgets a transfer. A block that only the transfer brought is retired.
    pub fn discard_replica_attempt(&mut self, arena: &mut Arena, plan_id: &Vec<u8>) -> (discarded:
        Result<(), WorkerError>)
        requires
            transfers_wf(old(self)@),
            old(arena)@.wf(),
        ensures
            transfers_wf(final(self)@),
            final(arena)@.wf(),
            replica_discarded(old(self)@, final(self)@, old(arena)@, final(arena)@, plan_id@, discarded),
    {
        let ghost before = self@;
        match self.transfers.remove(plan_id) {
            None => {
                assert(self@ =~= before);
                Err(WorkerError::NotFound)
            },
            Some(ReplicaTransferState::Active(replica)) => {
                if replica.owns_block {
                    arena.retire_block(&replica.block_id);
                }
                Ok(())
            },
            Some(_) => Ok(()),
        }
    }

    /// What is known of a transfer.
    pub fn replica_status(&self, plan_id: &Vec<u8>) -> (told: Result<ReplicaStateView, WorkerError>)
        ensures
            match told {
                Ok(view) => self@.contains_key(plan_id@) && view@ == self@[plan_id@].told(plan_id@),
                Err(error) => !self@.contains_key(plan_id@) && error is NotFound,
            },
    {
        match self.transfers.get(plan_id) {
            Some(state) => Ok(tell(plan_id, state)),
            None => Err(WorkerError::NotFound),
        }
    }

    /// Aborts the prepared replicas that waited too long.
    pub fn expire(&mut self, now: u64)
        requires
            transfers_wf(old(self)@),
        ensures
            transfers_wf(final(self)@),
            final(self)@ == lapsed_transfers(old(self)@, now),
    {
        let ghost before = self@;
        let lapse = |plan_id: &Vec<u8>, state: ReplicaTransferState| -> (next:
            ReplicaTransferState)
            ensures
                next@ == (if state@ matches TransferView::Prepared { expires_at, .. } && expires_at
                    <= now {
                    aborted(state@)
                } else {
                    state@
                }),
        {
            match state {
                ReplicaTransferState::Prepared(replica) => if replica.expires_at <= now {
                    ReplicaTransferState::Aborted(
                        FinishedReplica {
                            block_id: replica.block_id,
                            checksum: replica.checksum,
                            length: replica.length,
                            owns_block: false,
                        },
                    )
                } else {
                    ReplicaTransferState::Prepared(replica)
                },
                other => other,
            }
        };
        self.transfers.rewrite(
            lapse,
            Ghost(
                |plan_id: Seq<u8>, transfer: TransferView|
                    if transfer matches TransferView::Prepared { expires_at, .. } && expires_at
                        <= now {
                        aborted(transfer)
                    } else {
                        transfer
                    },
            ),
        );
        assert(self@ =~= lapsed_transfers(before, now));
    }
}

} // verus!
