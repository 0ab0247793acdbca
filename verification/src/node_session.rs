//! What clients do with their sessions, and what the passing of time does to the node.
use crate::arena::{Arena, HostReceipt, HostRegionGrant, ReleasedWriteAllocation};
#[allow(unused_imports)]
use crate::arena::{ArenaView, ReceiptView};
use crate::bytes::copy_bytes;
#[allow(unused_imports)]
use crate::bytes::views;
use crate::current_cache::CurrentCache;
#[allow(unused_imports)]
use crate::current_cache::{millis_to_nanos, CacheView};
#[allow(unused_imports)]
use crate::error::{arena_error_means, ArenaError};
use crate::error::{map_arena_error, WorkerError};
use crate::inode_reference::InodeReferences;
#[allow(unused_imports)]
use crate::inode_reference::ReferencesView;
use crate::limits::validate_grpc_payload_bytes;
#[allow(unused_imports)]
use crate::limits::payload_fault;
use crate::namespace::NamespaceAction;
#[allow(unused_imports)]
use crate::namespace::{watch_actions, ActionView};
use crate::node::{DownloadTicket, NodeState};
#[allow(unused_imports)]
use crate::node::NodeView;
use crate::peer_import::Imports;
#[allow(unused_imports)]
use crate::peer_import::ImportsView;
use crate::replica_transfer::Replicas;
#[allow(unused_imports)]
use crate::replica_transfer::lapsed_transfers;
use crate::retirement::Retirements;
#[allow(unused_imports)]
use crate::retirement::RetirementsView;
use crate::session::{Delivery, Session, Sessions};
#[allow(unused_imports)]
use crate::session::{
    events_for, lease_millis, opened_session, progress_fault, session_start, ActiveReadValue,
    EventView, SessionView, SessionsView,
};
use crate::table::{KeySet, Table};
#[allow(unused_imports)]
use crate::table::keys_are;
use vstd::prelude::*;

verus! {

/// What the node is made with.
pub struct NodeTaskConfig {
    pub arena_capacity_bytes: u64,
    pub staging_ttl: u64,
    pub client_cache_lease_ttl: u64,
    pub node_current_cache_bytes: u64,
    pub node_current_cache_ttl: u64,
    pub shared_memory: bool,
}

/// Where a client puts a payload.
#[derive(Debug, PartialEq, Eq)]
pub enum HostAllocationTarget {
    /// It uploads the payload.
    Grpc,
    /// It writes the payload to shared memory, and gives the mapping back with this.
    Shm(ReleasedWriteAllocation),
}

/// Memory that was set aside for a client's payload.
#[derive(Debug, PartialEq, Eq)]
pub struct StagingAllocation {
    pub staging_id: u64,
    pub transfer_id: u64,
    pub length: u64,
    pub target: HostAllocationTarget,
}

/// What follows from the end of a wait: the waiters are told that all is well.
pub struct Broadcast {
    /// The barrier that waits for the clients, if there is any.
    pub barrier_id: Option<u64>,
    pub deliveries: Vec<Delivery>,
    pub waiters: Vec<u64>,
}

/// The arena after mappings were given back in turn, and why one of them could not be.
pub open spec fn returned_all(
    arena: ArenaView,
    session_id: u64,
    released: Seq<ReleasedWriteAllocation>,
) -> (ArenaView, Option<ArenaError>)
    decreases released.len(),
{
    if released.len() == 0 {
        (arena, None)
    } else {
        let earlier = returned_all(arena, session_id, released.drop_last());
        if earlier.1 is Some {
            earlier
        } else {
            match earlier.0.returned(
                session_id,
                released.last().allocation_id,
                released.last().release_token@,
            ) {
                Ok(next) => (next, None),
                Err(error) => (earlier.0, Some(error)),
            }
        }
    }
}

/// The arena after the payloads of some sessions were dropped in turn.
pub open spec fn reclaimed_all(arena: ArenaView, session_ids: Seq<u64>) -> ArenaView
    decreases session_ids.len(),
{
    if session_ids.len() == 0 {
        arena
    } else {
        reclaimed_all(arena, session_ids.drop_last()).reclaimed(session_ids.last())
    }
}

/// Whether a session can still download something.
pub open spec fn downloading(downloads: Map<u64, DownloadTicket>, session_id: u64) -> bool {
    exists|id: u64| #[trigger]
        downloads.contains_key(id) && downloads[id].session_id == session_id
}

impl NodeView {
    /// The state that the node begins with.
    pub open spec fn started(
        node_id: Seq<char>,
        has_metadata: bool,
        config: NodeTaskConfig,
        raw_start: u64,
        now: u64,
    ) -> NodeView {
        NodeView {
            node_id,
            has_metadata,
            sessions: SessionsView {
                next_session: session_start(raw_start),
                next_barrier: 1,
                sessions: Map::empty(),
                barriers: Map::empty(),
            },
            arena: ArenaView {
                capacity: config.arena_capacity_bytes,
                used: 0,
                staging_ttl: config.staging_ttl,
                shared: config.shared_memory,
                next_allocation: 1,
                sessions: Set::empty(),
                blocks: Map::empty(),
                contents: Map::empty(),
                stagings: Map::empty(),
                reservations: Map::empty(),
            },
            cache: CacheView {
                budget: config.node_current_cache_bytes,
                ttl: config.node_current_cache_ttl,
                generation: 0,
                charged: 0,
                entries: Map::empty(),
            },
            imports: ImportsView {
                flights: Map::empty(),
                failures: Map::empty(),
                next_attempt: 1,
                bytes: 0,
                byte_limit: config.arena_capacity_bytes,
            },
            retirements: RetirementsView {
                pending: Map::empty(),
                completed: Seq::empty(),
                retiring: Set::empty(),
            },
            next_read_scope: 1,
            scopes: Set::empty(),
            next_transfer: 1,
            downloads: Map::empty(),
            replicas: Map::empty(),
            pending_blocks: Map::empty(),
            references: ReferencesView { references: Map::empty() },
            metadata_lease_until: now,
            metadata_watch_connected: false,
            client_cache_lease_ttl: config.client_cache_lease_ttl,
            config_version: 1,
        }
    }

    /// Whether a session can still download something.
    pub open spec fn has_download(self, session_id: u64) -> bool {
        downloading(self.downloads, session_id)
    }

    /// The sessions that something else than their leases and views needs.
    pub open spec fn needed(self) -> Set<u64> {
        Set::new(|id: u64| self.has_download(id) || self.arena.written_by(id))
    }

    /// Whether something needs a session although it is cut off.
    pub open spec fn has_obligations(self, session_id: u64) -> bool {
        ||| self.sessions.sessions.contains_key(session_id)
            && self.sessions.sessions[session_id].active_views != Map::<
            u64,
            ActiveReadValue,
        >::empty()
        ||| self.has_download(session_id)
        ||| self.arena.written_by(session_id)
    }

    /// The state after the leases that are over were taken away.
    pub open spec fn lapsed(self, now: u64) -> NodeView {
        NodeView { sessions: self.sessions.lapsed(now, self.needed()), ..self }
    }

    /// The state after a session said what it gave back and which reads have ended.
    pub open spec fn noted(
        self,
        session_id: u64,
        released: Option<u64>,
        finished: Option<u64>,
    ) -> NodeView {
        NodeView {
            sessions: self.sessions.with_session(
                session_id,
                self.sessions.sessions[session_id].progressed(released, finished),
            ),
            downloads: match finished {
                None => self.downloads,
                Some(finished) => self.downloads.restrict(
                    Set::new(
                        |id: u64|
                            self.downloads.contains_key(id) && (self.downloads[id].session_id
                                != session_id || self.downloads[id].read_request_id == 0
                                || self.downloads[id].read_request_id > finished),
                    ),
                ),
            },
            ..self
        }
    }

    /// The state after a session was closed, before leases are looked at.
    pub open spec fn closed(self, session_id: u64) -> NodeView {
        NodeView {
            sessions: if self.sessions.sessions.contains_key(session_id) {
                self.sessions.with_session(
                    session_id,
                    self.sessions.sessions[session_id].cut_off(),
                )
            } else {
                self.sessions
            },
            arena: self.arena.reclaimed(session_id),
            ..self
        }
    }

    /// The state after word of the metadata service's lease, or of the stream of its changes: with
    /// the stream, what the node remembers of current versions begins anew.
    pub open spec fn lease_noted(
        self,
        valid_until: Option<u64>,
        watch_connected: Option<bool>,
    ) -> NodeView {
        NodeView {
            metadata_lease_until: match valid_until {
                Some(until) => until,
                None => self.metadata_lease_until,
            },
            metadata_watch_connected: match watch_connected {
                Some(connected) => connected,
                None => self.metadata_watch_connected,
            },
            cache: match watch_connected {
                Some(_) => self.cache.cleared(),
                None => self.cache,
            },
            ..self
        }
    }

    /// Whether there are barriers and event numbers left.
    pub open spec fn can_broadcast(self) -> bool {
        &&& self.sessions.next_barrier < u64::MAX
        &&& forall|id: u64| #[trigger]
            self.sessions.sessions.contains_key(id)
                ==> self.sessions.sessions[id].next_event_sequence < u64::MAX
    }

    /// The state after a key's version went up: the node's own answers for older versions are
    /// gone, and so are leases that are over; what is left is told to the clients.
    pub open spec fn broadcast(self, key: Seq<u8>, minimum_version: u64, now: u64) -> NodeView {
        let quiet = NodeView {
            cache: self.cache.invalidated_before(key, minimum_version),
            ..self
        }.lapsed(now);
        NodeView { sessions: quiet.sessions.invalidated(key), ..quiet }
    }

    /// The sessions after the leases that are over were taken away, before the clients are told.
    pub open spec fn told_sessions(self, now: u64) -> SessionsView {
        self.sessions.lapsed(now, self.needed())
    }

    /// The state after what had expired was dropped, before retirements are looked at.
    pub open spec fn expired(self, now: u64) -> NodeView {
        let lapsed = self.lapsed(now);
        NodeView {
            arena: lapsed.arena.ticked(now),
            downloads: lapsed.downloads.restrict(
                Set::new(
                    |id: u64|
                        lapsed.downloads.contains_key(id) && lapsed.downloads[id].expires_at > now,
                ),
            ),
            ..lapsed
        }
    }
}

/// The receipt that counts for a session: one that may not give mappings back has no token.
pub open spec fn receipt_for(session: SessionView, receipt: ReceiptView) -> ReceiptView {
    if session.write_lease_release_supported {
        receipt
    } else {
        ReceiptView { release_token: Seq::empty(), ..receipt }
    }
}

proof fn lemma_lapsed_alike(
    sessions: SessionsView,
    now: u64,
    left: Set<u64>,
    right: Set<u64>,
)
    requires
        forall|id: u64| #[trigger]
            sessions.sessions.contains_key(id) ==> left.contains(id) == right.contains(id),
    ensures
        sessions.lapsed(now, left) == sessions.lapsed(now, right),
{
    assert(Set::new(|id: u64| sessions.forgotten(id, now, left)) =~= Set::new(
        |id: u64| sessions.forgotten(id, now, right),
    ));
}

proof fn lemma_return_fault_stays(
    arena: ArenaView,
    session_id: u64,
    released: Seq<ReleasedWriteAllocation>,
    n: int,
)
    requires
        0 <= n <= released.len(),
        returned_all(arena, session_id, released.take(n)).1 is Some,
    ensures
        returned_all(arena, session_id, released) == returned_all(
            arena,
            session_id,
            released.take(n),
        ),
    decreases released.len() - n,
{
    if n < released.len() {
        assert(released.take(n + 1).drop_last() =~= released.take(n));
        lemma_return_fault_stays(arena, session_id, released, n + 1);
    } else {
        assert(released.take(n) =~= released);
    }
}

/// When a key's version goes up, every session whose lease runs and that may have cached the key has
/// one more event to acknowledge, a barrier waits for it, and if it has its stream it is sent that
/// event, with the key and the version. Nobody else is sent anything. The node itself remembers no
/// older version of the key, and nothing else of the node changes but leases that are over.
pub proof fn a_new_version_reaches_every_holder(
    before: NodeView,
    key: Seq<u8>,
    minimum_version: u64,
    now: u64,
    sent: Broadcast,
    session_id: u64,
)
    requires
        before.wf(),
        before.can_broadcast(),
        broadcast_sent(before, key, minimum_version, now, sent),
        before.sessions.sessions.contains_key(session_id),
    ensures
        ({
            let after = before.broadcast(key, minimum_version, now);
            let session = before.sessions.sessions[session_id];
            let told = session.cache_until is Some && now < session.cache_until->0 && (
            session.cache_interest_all || session.cached_keys.contains(key));
            let event = EventView {
                session_epoch: session.epoch,
                event_sequence: session.next_event_sequence,
                key,
                minimum_version,
            };
            let sent_to = views(sent.deliveries@);
            &&& told ==> {
                &&& sent.barrier_id == Some(before.sessions.next_barrier)
                &&& after.sessions.barriers.contains_key(before.sessions.next_barrier)
                &&& after.sessions.barriers[before.sessions.next_barrier].waiting.contains_key(
                    session_id,
                )
                &&& after.sessions.barriers[before.sessions.next_barrier].waiting[session_id]
                    == session.next_event_sequence
                &&& after.sessions.sessions[session_id].next_event_sequence
                    == session.next_event_sequence + 1
                &&& session.attached ==> sent_to.contains((session_id, event))
            }
            &&& forall|delivery: (u64, EventView)|
                sent_to.contains(delivery) && delivery.0 == session_id ==> told && session.attached
                    && delivery.1 == event
            &&& !told && after.sessions.sessions.contains_key(session_id)
                ==> after.sessions.sessions[session_id].next_event_sequence
                == session.next_event_sequence
            &&& sent.barrier_id is Some ==> sent.barrier_id == Some(before.sessions.next_barrier)
                && after.sessions.barriers.contains_key(before.sessions.next_barrier)
            &&& after.cache.entries.contains_key(key) ==> after.cache.entries[key].layout.version
                >= minimum_version
            &&& after.arena == before.arena
            &&& after.downloads == before.downloads
            &&& after.imports == before.imports
            &&& after.retirements == before.retirements
            &&& after.pending_blocks == before.pending_blocks
            &&& after.references == before.references
        }),
{
    let after = before.broadcast(key, minimum_version, now);
    let session = before.sessions.sessions[session_id];
    let quiet = before.told_sessions(now);
    let told = session.cache_until is Some && now < session.cache_until->0 && (
    session.cache_interest_all || session.cached_keys.contains(key));
    let sent_to = views(sent.deliveries@);
    let ids = choose|ids: Seq<u64>| #[trigger]
        keys_are(ids, quiet.holders(key)) && sent_to == events_for(
            quiet.sessions,
            ids,
            key,
            minimum_version,
        );
    crate::session::leases_end_for_exactly_the_sessions_that_ran_out(
        before.sessions,
        now,
        before.needed(),
        session_id,
        before.sessions.next_barrier,
    );
    let unheard = NodeView {
        cache: before.cache.invalidated_before(key, minimum_version),
        ..before
    };
    assert(unheard.needed() =~= before.needed());
    assert(after.sessions == quiet.invalidated(key));
    assert(quiet.holders(key).contains(session_id) <==> told);
    if told {
        let at = choose|at: int| #![trigger ids[at]] 0 <= at < ids.len() && ids[at]@ == session_id;
        assert(ids.contains(session_id));
        crate::session::each_session_with_a_stream_gets_its_event(
            quiet.sessions,
            ids,
            key,
            minimum_version,
            (
                session_id,
                EventView {
                    session_epoch: session.epoch,
                    event_sequence: session.next_event_sequence,
                    key,
                    minimum_version,
                },
            ),
        );
    }
    assert forall|delivery: (u64, EventView)|
        sent_to.contains(delivery) && delivery.0 == session_id implies told && session.attached
        && delivery.1 == (EventView {
        session_epoch: session.epoch,
        event_sequence: session.next_event_sequence,
        key,
        minimum_version,
    }) by {
        crate::session::each_session_with_a_stream_gets_its_event(
            quiet.sessions,
            ids,
            key,
            minimum_version,
            delivery,
        );
        let at = choose|at: int| 0 <= at < ids.len() && ids[at] == session_id;
        assert(quiet.holders(key).contains(ids[at]@));
    }
    if quiet.holders(key) != Set::<u64>::empty() {
        assert(after.sessions.barriers.contains_key(quiet.next_barrier));
    }
}

/// A heartbeat that is granted a lease lets its client use what it caches for so long from now on; one
/// that asks for none, or gets none, leaves the client's lease as it was. A client that kept up gets the
/// longest lease of whole milliseconds that neither outlives what the node itself may rely on nor
/// exceeds the limit. A heartbeat of a live session that gives back nothing unknown is answered. What
/// the client gave back and which of its reads have ended is noted. Nothing is noted for another
/// session.
pub proof fn a_heartbeat_renews_its_own_lease(
    before: NodeView,
    after: NodeView,
    session_id: u64,
    released_view_through: Option<u64>,
    released_writes: Seq<ReleasedWriteAllocation>,
    finished_read_request_through: Option<u64>,
    renew_cache: bool,
    stream_closed: bool,
    now: u64,
    granted: Result<u64, WorkerError>,
    waiters: Seq<u64>,
    other: u64,
)
    requires
        heartbeat_result(
            before,
            after,
            session_id,
            released_view_through,
            released_writes,
            finished_read_request_through,
            renew_cache,
            stream_closed,
            now,
            granted,
            waiters,
        ),
        now + before.client_cache_lease_ttl <= u64::MAX,
    ensures
        granted matches Ok(millis) ==> {
            let session = before.sessions.sessions[session_id];
            let next = after.sessions.sessions[session_id];
            &&& before.sessions.sessions.contains_key(session_id)
            &&& after.sessions.sessions.contains_key(session_id)
            &&& !renew_cache ==> millis == 0
            &&& millis == 0 ==> next.cache_until == session.cache_until
            &&& millis > 0 ==> next.cache_until == Some((now + millis * 1_000_000) as u64) && now
                + millis * 1_000_000 <= before.metadata_lease_until
                && before.metadata_watch_connected && session.attached && !stream_closed
                && session.last_ack + 1 >= session.next_event_sequence
            &&& next.cached_keys == session.cached_keys
            &&& next.cache_interest_all == session.cache_interest_all
            &&& next.next_event_sequence == session.next_event_sequence
            &&& released_view_through is Some ==> released_view_through->0
                < session.next_view_epoch && next.released_view_through
                >= released_view_through->0
            &&& finished_read_request_through is Some ==> next.finished_read_request_through
                >= finished_read_request_through->0
            &&& session.disconnected ==> released_view_through is Some || released_writes.len() > 0
                || finished_read_request_through is Some
            &&& released_writes.len() > 0 ==> session.write_lease_release_supported
            &&& renew_cache && !session.disconnected && session.attached && !stream_closed
                && before.metadata_watch_connected && session.last_ack + 1
                >= session.next_event_sequence && now < before.metadata_lease_until ==> now + (
            millis + 1) * 1_000_000 > before.metadata_lease_until || (millis + 1) * 1_000_000
                > before.client_cache_lease_ttl
        },
        before.sessions.live(session_id) && released_writes.len() == 0 && (released_view_through
            is None || released_view_through->0
            < before.sessions.sessions[session_id].next_view_epoch) ==> granted is Ok,
        other != session_id ==> after.sessions.sessions.contains_key(other)
            == before.sessions.sessions.contains_key(other) && after.sessions.sessions[other]
            == before.sessions.sessions[other],
        after.sessions.barriers == before.sessions.barriers,
{
    if let Ok(millis) = granted {
        let noted = before.noted(session_id, released_view_through, finished_read_request_through);
        let returned = returned_all(noted.arena, session_id, released_writes);
        if renew_cache {
            assert(millis * 1_000_000 <= before.client_cache_lease_ttl);
            assert(millis_to_nanos(millis) == millis * 1_000_000);
        }
    }
}

/// A client that the node knows may always say up to which event it has come, and that is noted for it alone,
/// however late it says so. A client that the node does not know is refused.
pub proof fn an_acknowledgement_is_noted_for_its_session(
    before: NodeView,
    after: NodeView,
    session_id: u64,
    sequence: u64,
    acknowledged: Result<Vec<u64>, WorkerError>,
    other: u64,
)
    requires
        acknowledgement_result(before, after, session_id, sequence, acknowledged),
    ensures
        acknowledged is Ok <==> before.sessions.sessions.contains_key(session_id),
        acknowledged is Err ==> acknowledged->Err_0 is UnknownSession && after == before,
        acknowledged is Ok ==> {
            let session = before.sessions.sessions[session_id];
            let next = after.sessions.sessions[session_id];
            &&& after.sessions.sessions.contains_key(session_id)
            &&& next.last_ack >= sequence && next.last_ack >= session.last_ack
            &&& next.last_ack == sequence || next.last_ack == session.last_ack
            &&& next.cache_until == session.cache_until
            &&& next.cached_keys == session.cached_keys
            &&& next.next_event_sequence == session.next_event_sequence
            &&& next.active_views == session.active_views
            &&& next.disconnected == session.disconnected
        },
        other != session_id ==> after.sessions.sessions.contains_key(other)
            == before.sessions.sessions.contains_key(other) && after.sessions.sessions[other]
            == before.sessions.sessions[other],
        after.arena == before.arena,
        after.downloads == before.downloads,
        after.cache == before.cache,
        after.scopes == before.scopes,
{
}

/// A region is mapped only by a live session that uses shared memory, and by one of these whenever the
/// memory gives it the right to.
pub proof fn a_region_is_for_a_session_with_shared_memory(
    node: NodeView,
    session_id: u64,
    region_id: u64,
    acquired: Result<HostRegionGrant, WorkerError>,
)
    requires
        region_acquired(node, session_id, region_id, acquired),
    ensures
        acquired is Ok <==> node.sessions.sessions.contains_key(session_id)
            && !node.sessions.sessions[session_id].disconnected
            && node.sessions.sessions[session_id].shared_memory && node.arena.region(
            session_id,
            region_id,
        ) is Ok,
        acquired is Ok ==> acquired->Ok_0 == node.arena.region(session_id, region_id)->Ok_0,
        !node.sessions.sessions.contains_key(session_id)
            || node.sessions.sessions[session_id].disconnected
            || !node.sessions.sessions[session_id].shared_memory ==> acquired is Err
            && acquired->Err_0 is UnknownSession,
{
}

/// A session that is cut off is still needed as long as it may look at memory, something can be downloaded
/// for it, or it may write to a block, and no longer.
pub proof fn a_session_is_needed_while_it_uses_memory(
    node: NodeView,
    session_id: u64,
    epoch: u64,
    download_id: u64,
    block_id: Seq<u8>,
)
    ensures
        node.sessions.sessions.contains_key(session_id)
            && node.sessions.sessions[session_id].active_views.contains_key(epoch)
            ==> node.has_obligations(session_id),
        node.downloads.contains_key(download_id) && node.downloads[download_id].session_id
            == session_id ==> node.has_obligations(session_id) && node.needed().contains(session_id),
        node.arena.blocks.contains_key(block_id) && node.arena.blocks[block_id].writer == Some(
            session_id,
        ) ==> node.has_obligations(session_id) && node.needed().contains(session_id),
        node.needed().contains(session_id) || (node.sessions.sessions.contains_key(session_id)
            && exists|view: u64| #[trigger]
            node.sessions.sessions[session_id].active_views.contains_key(view))
            <==> node.has_obligations(session_id),
        node.needed().contains(session_id) <==> (exists|id: u64| #[trigger]
            node.downloads.contains_key(id) && node.downloads[id].session_id == session_id)
            || (exists|id: Seq<u8>|
            #![trigger node.arena.blocks.contains_key(id)]
            node.arena.blocks.contains_key(id) && node.arena.blocks[id].writer == Some(session_id)),
{
    let views = node.sessions.sessions[session_id].active_views;
    if views.contains_key(epoch) {
        assert(views != Map::<u64, ActiveReadValue>::empty());
    }
    if views != Map::<u64, ActiveReadValue>::empty() && !(exists|view: u64| #[trigger]
        views.contains_key(view)) {
        assert(views =~= Map::<u64, ActiveReadValue>::empty());
    }
}

/// A download stays until its read has ended, its session aside, or its time is over, and no
/// longer. Downloads of other sessions, and those that belong to no read, stay whatever a session
/// says has ended.
pub proof fn a_download_stays_until_its_read_or_its_time_is_over(
    node: NodeView,
    session_id: u64,
    released: Option<u64>,
    finished: Option<u64>,
    now: u64,
    download_id: u64,
)
    ensures
        ({
            let next = node.noted(session_id, released, finished);
            let download = node.downloads[download_id];
            let ended = finished is Some && download.session_id == session_id
                && download.read_request_id != 0 && download.read_request_id <= finished->0;
            &&& next.downloads.contains_key(download_id) <==> node.downloads.contains_key(
                download_id,
            ) && !ended
            &&& next.downloads.contains_key(download_id) ==> next.downloads[download_id] == download
            &&& next.arena == node.arena
            &&& next.cache == node.cache
        }),
        ({
            let next = node.expired(now);
            &&& next.downloads.contains_key(download_id) <==> node.downloads.contains_key(
                download_id,
            ) && now < node.downloads[download_id].expires_at
            &&& next.downloads.contains_key(download_id) ==> next.downloads[download_id]
                == node.downloads[download_id]
            &&& next.arena.blocks == node.arena.blocks
            &&& next.arena.contents == node.arena.contents
            &&& next.cache == node.cache
            &&& next.scopes == node.scopes
        }),
{
}

/// Memory that a client asks for to stage a payload is its own, of the length that it asked for, under a
/// number that no other memory has, and shared with the client if and only if both the client and the
/// node share memory; otherwise the payload has to fit into a message. Nothing else changes.
pub proof fn a_client_stages_what_it_asked_for(
    before: NodeView,
    after: NodeView,
    session_id: u64,
    length: u64,
    release_token: Seq<u8>,
    now: u64,
    allocated: Result<StagingAllocation, WorkerError>,
)
    requires
        before.arena.wf(),
        staging_result(before, after, session_id, length, release_token, now, allocated),
    ensures
        ({
            let shared = before.sessions.sessions[session_id].shared_memory && before.arena.shared;
            &&& allocated is Ok <==> length > 0 && before.sessions.live(session_id) && (shared
                || length <= 8388608) && before.arena.used + length <= before.arena.capacity
                && before.arena.next_allocation < u64::MAX
            &&& allocated matches Ok(made) ==> {
                let staging = after.arena.stagings[made.staging_id];
                &&& !before.arena.stagings.contains_key(made.staging_id)
                &&& !before.arena.contents.contains_key(made.staging_id)
                &&& after.arena.stagings.contains_key(made.staging_id)
                &&& staging.session_id == session_id
                &&& staging.length == length
                &&& staging.payload is None
                &&& staging.shared == shared
                &&& made.length == length
                &&& made.transfer_id == made.staging_id
                &&& made.target is Shm <==> shared
                &&& after.arena.used == before.arena.used + length
            }
            &&& allocated is Err ==> after == before
            &&& after.sessions == before.sessions
            &&& after.arena.blocks == before.arena.blocks
            &&& after.cache == before.cache
        }),
{
    if before.arena.stagings.contains_key(before.arena.next_allocation) {
        assert(before.arena.staging_wf(before.arena.next_allocation));
    }
}

/// When events cannot be delivered to some sessions, what these had staged is gone, and nobody else
/// loses anything.
pub proof fn only_what_lost_sessions_staged_goes(
    arena: ArenaView,
    session_ids: Seq<u64>,
    staging_id: u64,
)
    ensures
        ({
            let next = reclaimed_all(arena, session_ids);
            &&& next.stagings.contains_key(staging_id) <==> arena.stagings.contains_key(staging_id)
                && !session_ids.contains(arena.stagings[staging_id].session_id)
            &&& next.stagings.contains_key(staging_id) ==> next.stagings[staging_id]
                == arena.stagings[staging_id]
            &&& next.blocks == arena.blocks
            &&& next.contents == arena.contents
            &&& next.reservations == arena.reservations
        }),
    decreases session_ids.len(),
{
    if session_ids.len() > 0 {
        let rest = session_ids.drop_last();
        let owner = arena.stagings[staging_id].session_id;
        only_what_lost_sessions_staged_goes(arena, rest, staging_id);
        assert(session_ids[session_ids.len() - 1] == session_ids.last());
        assert(session_ids.contains(owner) <==> rest.contains(owner) || session_ids.last()
            == owner) by {
            if rest.contains(owner) {
                let i = choose|i: int| 0 <= i < rest.len() && rest[i] == owner;
                assert(session_ids[i] == owner);
            }
            if session_ids.contains(owner) && session_ids.last() != owner {
                let i = choose|i: int| 0 <= i < session_ids.len() && session_ids[i] == owner;
                assert(rest[i] == owner);
            }
        }
    }
}

/// A session that is closed cannot be used any more, and what it had staged is gone. What it may have
/// cached it still holds until its lease is over. Other sessions, and blocks, are not touched.
pub proof fn a_closed_session_keeps_its_keys_and_loses_what_it_staged(
    node: NodeView,
    session_id: u64,
    key: Seq<u8>,
    staging_id: u64,
    other: u64,
)
    ensures
        ({
            let next = node.closed(session_id);
            &&& !next.sessions.live(session_id)
            &&& node.sessions.holders(key).contains(session_id) ==> next.sessions.holders(
                key,
            ).contains(session_id)
            &&& next.arena.stagings.contains_key(staging_id)
                <==> node.arena.stagings.contains_key(staging_id)
                && node.arena.stagings[staging_id].session_id != session_id
            &&& next.arena.blocks == node.arena.blocks
            &&& next.arena.contents == node.arena.contents
            &&& other != session_id ==> next.sessions.sessions.contains_key(other)
                == node.sessions.sessions.contains_key(other) && next.sessions.sessions[other]
                == node.sessions.sessions[other]
            &&& next.sessions.barriers == node.sessions.barriers
        }),
{
}

/// A node begins without sessions, blocks, answers and reads, with the room and the times that it was
/// made with, and not yet informed of anything.
pub proof fn a_node_begins_empty(
    node_id: Seq<char>,
    has_metadata: bool,
    config: NodeTaskConfig,
    raw_start: u64,
    now: u64,
    session_id: u64,
    block_id: Seq<u8>,
    key: Seq<u8>,
)
    ensures
        ({
            let node = NodeView::started(node_id, has_metadata, config, raw_start, now);
            &&& node.node_id == node_id
            &&& node.has_metadata == has_metadata
            &&& !node.sessions.sessions.contains_key(session_id)
            &&& node.sessions.next_session > 0
            &&& !node.arena.blocks.contains_key(block_id)
            &&& !node.pending_blocks.contains_key(block_id)
            &&& !node.imports.flights.contains_key(block_id)
            &&& !node.retirements.retiring.contains(block_id)
            &&& node.arena.used == 0
            &&& node.arena.capacity == config.arena_capacity_bytes
            &&& node.arena.staging_ttl == config.staging_ttl
            &&& node.arena.shared == config.shared_memory
            &&& !node.cache.entries.contains_key(key)
            &&& node.cache.budget == config.node_current_cache_bytes
            &&& node.cache.ttl == config.node_current_cache_ttl
            &&& node.imports.byte_limit == config.arena_capacity_bytes
            &&& node.client_cache_lease_ttl == config.client_cache_lease_ttl
            &&& !node.metadata_watch_connected
            &&& node.metadata_lease_until <= now
        }),
{
}

/// Word of a lease or of a stream of changes is noted as it came. With the stream, whatever the node
/// remembered is forgotten, and what was asked for before is not remembered any more.
pub proof fn word_of_the_stream_begins_anew(
    node: NodeView,
    valid_until: Option<u64>,
    watch_connected: Option<bool>,
    key: Seq<u8>,
)
    requires
        node.cache.generation < u64::MAX,
    ensures
        ({
            let next = node.lease_noted(valid_until, watch_connected);
            &&& valid_until is Some ==> next.metadata_lease_until == valid_until->0
            &&& valid_until is None ==> next.metadata_lease_until == node.metadata_lease_until
            &&& watch_connected is Some ==> next.metadata_watch_connected == watch_connected->0
                && !next.cache.entries.contains_key(key) && next.cache.generation
                == node.cache.generation + 1
            &&& watch_connected is None ==> next.metadata_watch_connected
                == node.metadata_watch_connected && next.cache == node.cache
            &&& next.sessions == node.sessions
            &&& next.arena == node.arena
        }),
{
}

/// What opening a session does.
pub open spec fn session_opened(
    before: NodeView,
    after: NodeView,
    shared_memory: bool,
    supports_write_lease_release: bool,
    opened: Result<u64, WorkerError>,
) -> bool {
    match opened {
        Ok(id) => {
            &&& before.sessions.next_id() == Some(id)
            &&& after == (NodeView {
                sessions: (SessionsView {
                    next_session: (id + 1) as u64,
                    ..before.sessions
                }).with_session(
                    id,
                    opened_session(shared_memory, supports_write_lease_release),
                ),
                arena: ArenaView {
                    sessions: before.arena.sessions.insert(id),
                    ..before.arena
                },
                ..before
            })
        },
        Err(error) => {
            &&& before.sessions.next_id() is None
            &&& error is ResourceExhausted
            &&& after == before
        },
    }
}

/// What attaching the stream of a session does.
pub open spec fn session_attached(
    before: NodeView,
    after: NodeView,
    session_id: u64,
    attached: Result<(), WorkerError>,
) -> bool {
    match attached {
        Ok(_) => {
            &&& before.sessions.live(session_id)
            &&& after == (NodeView {
                sessions: before.sessions.with_session(
                    session_id,
                    (SessionView {
                        attached: true,
                        ..before.sessions.sessions[session_id]
                    }),
                ),
                ..before
            })
        },
        Err(error) => {
            &&& !before.sessions.live(session_id)
            &&& error is UnknownSession
            &&& after == before
        },
    }
}

/// What acknowledging an event does.
pub open spec fn acknowledgement_result(
    before: NodeView,
    after: NodeView,
    session_id: u64,
    sequence: u64,
    acknowledged: Result<Vec<u64>, WorkerError>,
) -> bool {
    match acknowledged {
        Ok(waiters) => {
            &&& before.sessions.sessions.contains_key(session_id)
            &&& after == (NodeView {
                sessions: before.sessions.acknowledged(session_id, sequence),
                ..before
            })
            &&& before.sessions.finishes(
                SessionsView::ack_change(session_id, sequence),
                waiters@,
            )
        },
        Err(error) => {
            &&& !before.sessions.sessions.contains_key(session_id)
            &&& error is UnknownSession
            &&& after == before
        },
    }
}

/// What filling a staged payload does.
pub open spec fn upload_result(
    before: NodeView,
    after: NodeView,
    transfer_id: u64,
    bytes: Seq<u8>,
    uploaded: Result<HostReceipt, WorkerError>,
) -> bool {
    match uploaded {
        Ok(receipt) => {
            &&& payload_fault(bytes.len() as u64) is None
            &&& before.arena.uploaded(transfer_id, bytes) matches Ok(arena)
            &&& after == (NodeView { arena, ..before })
            &&& receipt@ == (ReceiptView {
                length: bytes.len() as u64,
                digest: crate::digest::sha256_of(bytes),
                release_token: before.arena.stagings[transfer_id].release_token,
            })
        },
        Err(error) => {
            &&& after == before
            &&& if payload_fault(bytes.len() as u64) is Some {
                payload_fault(bytes.len() as u64) == Some(error)
            } else {
                before.arena.uploaded(transfer_id, bytes) matches Err(fault)
                    && arena_error_means(fault, error)
            }
        },
    }
}

/// What a session is answered that asks for a region of shared memory.
pub open spec fn region_acquired(
    node: NodeView,
    session_id: u64,
    region_id: u64,
    acquired: Result<HostRegionGrant, WorkerError>,
) -> bool {
    if !node.sessions.live(session_id) || !node.sessions.sessions[session_id].shared_memory {
        acquired matches Err(error) && error is UnknownSession
    } else {
        match node.arena.region(session_id, region_id) {
            Ok(grant) => acquired == Ok::<HostRegionGrant, WorkerError>(grant),
            Err(fault) => acquired matches Err(error) && arena_error_means(fault, error),
        }
    }
}

/// What taking the bytes does that a client wrote to shared memory. They did not come in a message,
/// so no limit of a message holds for them.
pub open spec fn mapped_result(
    before: NodeView,
    after: NodeView,
    transfer_id: u64,
    bytes: Seq<u8>,
    filled: Result<HostReceipt, WorkerError>,
) -> bool {
    if before.arena.stagings.contains_key(transfer_id)
        && !before.arena.stagings[transfer_id].shared {
        after == before && filled == Err::<HostReceipt, WorkerError>(
            WorkerError::InvalidArgument("payload is not written through a mapping"),
        )
    } else {
        match filled {
            Ok(receipt) => {
                &&& before.arena.uploaded(transfer_id, bytes) matches Ok(arena)
                &&& after == (NodeView { arena, ..before })
                &&& receipt@ == (ReceiptView {
                    length: bytes.len() as u64,
                    digest: crate::digest::sha256_of(bytes),
                    release_token: before.arena.stagings[transfer_id].release_token,
                })
            },
            Err(error) => {
                &&& after == before
                &&& before.arena.uploaded(transfer_id, bytes) matches Err(fault)
                    && arena_error_means(fault, error)
            },
        }
    }
}

/// A client with shared memory can stage a payload of any length that the arena has room for: what
/// it writes through its mapping is taken, and its receipt then counts.
pub proof fn a_mapped_payload_is_not_bounded_by_a_message(
    before: NodeView,
    session_id: u64,
    length: u64,
    release_token: Seq<u8>,
    now: u64,
    staged: NodeView,
    allocated: Result<StagingAllocation, WorkerError>,
    bytes: Seq<u8>,
    mapped: NodeView,
    filled: Result<HostReceipt, WorkerError>,
)
    requires
        before.wf(),
        before.sessions.live(session_id),
        before.sessions.sessions[session_id].shared_memory && before.arena.shared,
        length > 0,
        before.arena.used + length <= before.arena.capacity,
        before.arena.next_allocation < u64::MAX,
        staging_result(before, staged, session_id, length, release_token, now, allocated),
        bytes.len() == length,
        allocated matches Ok(made) ==> mapped_result(
            staged,
            mapped,
            made.transfer_id,
            bytes,
            filled,
        ),
    ensures
        allocated matches Ok(made) && made.target is Shm,
        filled is Ok,
        mapped.arena.staging_fault(session_id, allocated->Ok_0.staging_id, filled->Ok_0@) is None,
        mapped.arena.stagings[allocated->Ok_0.staging_id].payload == Some(bytes),
{
}

/// What giving up a staged payload does.
pub open spec fn staging_deleted(
    before: NodeView,
    after: NodeView,
    session_id: u64,
    staging_id: u64,
    deleted: Result<(), WorkerError>,
) -> bool {
    match deleted {
        Ok(_) => {
            &&& before.sessions.live(session_id)
            &&& after == (NodeView {
                arena: if before.arena.staged_by(staging_id, session_id) {
                    before.arena.unstaged(staging_id)
                } else {
                    before.arena
                },
                ..before
            })
        },
        Err(error) => {
            &&& !before.sessions.live(session_id)
            &&& error is UnknownSession
            &&& after == before
        },
    }
}

/// What taking a staged payload out does.
pub open spec fn staging_consumed(
    before: NodeView,
    after: NodeView,
    session_id: u64,
    staging_id: u64,
    receipt: ReceiptView,
    consumed: Result<Vec<u8>, WorkerError>,
) -> bool {
    match consumed {
        Ok(bytes) => {
            &&& before.sessions.live(session_id)
            &&& before.arena.staging_fault(session_id, staging_id, receipt) is None
            &&& before.arena.stagings[staging_id].payload == Some(bytes@)
            &&& after == (NodeView {
                arena: before.arena.unstaged(staging_id),
                ..before
            })
        },
        Err(error) => {
            &&& after == before
            &&& if !before.sessions.live(session_id) {
                error is UnknownSession
            } else {
                before.arena.staging_fault(
                    session_id,
                    staging_id,
                    receipt,
                ) matches Some(fault) && arena_error_means(fault, error)
            }
        },
    }
}

/// A session that is opened can be used from then on, under a number that none before it had, and has
/// cached nothing. It gets one as long as there are numbers. A session gets its stream as long as it
/// can be used. Neither touches another session.
pub proof fn an_opened_session_can_be_used(
    before: NodeView,
    after: NodeView,
    shared_memory: bool,
    release: bool,
    opened: Result<u64, WorkerError>,
    session_id: u64,
    attached: Result<(), WorkerError>,
    other: u64,
)
    requires
        before.wf(),
    ensures
        session_opened(before, after, shared_memory, release, opened) ==> {
            &&& opened is Ok <==> before.sessions.next_session < u64::MAX
            &&& opened matches Ok(id) ==> {
                &&& id != 0
                &&& !before.sessions.sessions.contains_key(id)
                &&& after.sessions.live(id)
                &&& after.sessions.next_session > id
                &&& after.sessions.sessions[id].shared_memory == shared_memory
                &&& after.sessions.sessions[id].cache_until is None
                &&& after.arena.sessions.contains(id)
                &&& other != id ==> after.sessions.sessions.contains_key(other)
                    == before.sessions.sessions.contains_key(other)
                    && after.sessions.sessions[other] == before.sessions.sessions[other]
                &&& after.arena.blocks == before.arena.blocks
                &&& after.sessions.barriers == before.sessions.barriers
            }
            &&& opened is Err ==> after == before
        },
        session_attached(before, after, session_id, attached) ==> {
            &&& attached is Ok <==> before.sessions.sessions.contains_key(session_id)
                && !before.sessions.sessions[session_id].disconnected
            &&& attached is Ok ==> after.sessions.sessions[session_id].attached
                && after.sessions.live(session_id)
            &&& other != session_id ==> after.sessions.sessions.contains_key(other)
                == before.sessions.sessions.contains_key(other) && after.sessions.sessions[other]
                == before.sessions.sessions[other]
            &&& attached is Err ==> after == before
        },
{
}

/// Bytes that were sent or written for a staged payload are what the payload holds, and the receipt
/// names their length, their digest and the payload's token. What a client takes out again is these
/// bytes, and it is then gone. What another session staged cannot be taken out or given up.
pub proof fn what_was_staged_comes_out_again(
    before: NodeView,
    after: NodeView,
    session_id: u64,
    staging_id: u64,
    bytes: Seq<u8>,
    uploaded: Result<HostReceipt, WorkerError>,
    receipt: ReceiptView,
    consumed: Result<Vec<u8>, WorkerError>,
    deleted: Result<(), WorkerError>,
)
    ensures
        (upload_result(before, after, staging_id, bytes, uploaded) || mapped_result(
            before,
            after,
            staging_id,
            bytes,
            uploaded,
        )) && bytes.len() <= u64::MAX ==> {
            &&& uploaded matches Ok(given) ==> {
                &&& after.arena.stagings.contains_key(staging_id)
                &&& after.arena.stagings[staging_id].payload == Some(bytes)
                &&& after.arena.stagings[staging_id].session_id
                    == before.arena.stagings[staging_id].session_id
                &&& before.arena.stagings[staging_id].length == bytes.len()
                &&& given@.length == bytes.len()
                &&& given@.digest == crate::digest::sha256_of(bytes)
                &&& given@.release_token == before.arena.stagings[staging_id].release_token
                &&& after.arena.staging_fault(
                    after.arena.stagings[staging_id].session_id,
                    staging_id,
                    given@,
                ) is None
            }
            &&& uploaded is Err ==> after == before
        },
        staging_consumed(before, after, session_id, staging_id, receipt, consumed) ==> {
            &&& consumed is Ok <==> before.sessions.live(session_id)
                && before.arena.stagings.contains_key(staging_id)
                && before.arena.stagings[staging_id].session_id == session_id
                && before.arena.stagings[staging_id].payload is Some && receipt.length
                == before.arena.stagings[staging_id].length && receipt.digest
                == before.arena.stagings[staging_id].digest
            &&& consumed matches Ok(taken) ==> before.arena.stagings[staging_id].payload == Some(
                taken@,
            ) && !after.arena.stagings.contains_key(staging_id)
            &&& consumed is Err ==> after == before
        },
        staging_deleted(before, after, session_id, staging_id, deleted) ==> {
            &&& deleted is Ok <==> before.sessions.live(session_id)
            &&& after.arena.stagings.contains_key(staging_id)
                <==> before.arena.stagings.contains_key(staging_id) && !(deleted is Ok
                && before.arena.stagings[staging_id].session_id == session_id)
            &&& after.arena.blocks == before.arena.blocks
        },
{
}

impl NodeState {
    /// A node without sessions and blocks. The first session id comes from a random number.
    pub fn new(node_id: String, has_metadata: bool, config: &NodeTaskConfig, raw_start: u64, now: u64) -> (node:
        Self)
        ensures
            node@.wf(),
            node@ == NodeView::started(node_id@, has_metadata, *config, raw_start, now),
    {
        NodeState {
            node_id,
            has_metadata,
            sessions: Sessions::new(raw_start),
            arena: Arena::new(config.arena_capacity_bytes, config.staging_ttl, config.shared_memory),
            current_cache: CurrentCache::new(
                config.node_current_cache_bytes,
                config.node_current_cache_ttl,
            ),
            imports: Imports::new(config.arena_capacity_bytes),
            retirements: Retirements::new(),
            next_read_scope: 1,
            active_read_scopes: KeySet::new(),
            next_transfer: 1,
            downloads: Table::new(),
            replicas: Replicas::new(),
            pending_blocks: Table::new(),
            references: InodeReferences::new(),
            metadata_lease_until: now,
            metadata_watch_connected: false,
            client_cache_lease_ttl: config.client_cache_lease_ttl,
            config_version: 1,
        }
    }

    /// Opens a session.
    pub fn open_session_with_write_release(
        &mut self,
        shared_memory: bool,
        supports_write_lease_release: bool,
    ) -> (opened: Result<u64, WorkerError>)
        requires
            old(self)@.wf(),
        ensures
            final(self)@.wf(),
            session_opened(old(self)@, final(self)@, shared_memory, supports_write_lease_release, opened),
    {
        match self.sessions.open_session_with_write_release(
            shared_memory,
            supports_write_lease_release,
        ) {
            Ok(id) => {
                self.arena.register_session(id);
                Ok(id)
            },
            Err(error) => Err(error),
        }
    }

    /// Gives a session a stream of events.
    pub fn attach_session(&mut self, session_id: u64) -> (attached: Result<(), WorkerError>)
        requires
            old(self)@.wf(),
        ensures
            final(self)@.wf(),
            session_attached(old(self)@, final(self)@, session_id, attached),
    {
        self.sessions.attach_session(session_id)
    }

    /// Gives mappings back, up to the first that cannot be.
    fn return_writes(&mut self, session_id: u64, released: &Vec<ReleasedWriteAllocation>) -> (fault:
        Option<WorkerError>)
        requires
            old(self)@.wf(),
        ensures
            final(self)@.wf(),
            final(self)@ == (NodeView {
                arena: returned_all(old(self)@.arena, session_id, released@).0,
                ..old(self)@
            }),
            match (fault, returned_all(old(self)@.arena, session_id, released@).1) {
                (Some(error), Some(cause)) => arena_error_means(cause, error),
                (None, None) => true,
                _ => false,
            },
    {
        let ghost before = self@;
        let mut i: usize = 0;
        assert(released@.take(0) =~= Seq::empty());
        while i < released.len()
            invariant
                i <= released@.len(),
                before == old(self)@,
                self@.wf(),
                self@ == (NodeView { arena: self@.arena, ..before }),
                returned_all(before.arena, session_id, released@.take(i as int)) == (
                    self@.arena,
                    None::<ArenaError>,
                ),
            decreases released.len() - i,
        {
            assert(released@.take(i + 1).drop_last() =~= released@.take(i as int));
            match self.arena.release_write_allocation(session_id, &released[i]) {
                Ok(_) => {},
                Err(error) => {
                    proof {
                        lemma_return_fault_stays(before.arena, session_id, released@, i + 1);
                    }
                    return Some(map_arena_error(error));
                },
            }
            i = i + 1;
        }
        assert(released@.take(i as int) =~= released@);
        None
    }

    /// Takes what a session reports: views and mappings that it gave back, reads that have ended.
    /// A session that asks for it may use what it caches for some time, and is told for how many
    /// milliseconds. Returns also who waited for what the session gave back.
    pub fn heartbeat_inner(
        &mut self,
        session_id: u64,
        released_view_through: Option<u64>,
        released_write_allocations: &Vec<ReleasedWriteAllocation>,
        finished_read_request_through: Option<u64>,
        renew_cache: bool,
        stream_closed: bool,
        now: u64,
    ) -> (beat: (Result<u64, WorkerError>, Vec<u64>))
        requires
            old(self)@.wf(),
        ensures
            final(self)@.wf(),
            heartbeat_result(
                old(self)@,
                final(self)@,
                session_id,
                released_view_through,
                released_write_allocations@,
                finished_read_request_through,
                renew_cache,
                stream_closed,
                now,
                beat.0,
                beat.1@,
            ),
    {
        let ghost before = self@;
        let cleanup_only: bool = released_view_through.is_some() || released_write_allocations.len()
            > 0 || finished_read_request_through.is_some();
        let supported: bool = match self.sessions.note_progress(
            session_id,
            released_view_through,
            finished_read_request_through,
            cleanup_only,
        ) {
            Ok(supported) => supported,
            Err(error) => {
                return (Err(error), Vec::new());
            },
        };
        if let Some(finished) = finished_read_request_through {
            let wanted = |id: &u64, ticket: &DownloadTicket| -> (met: bool)
                ensures
                    met == (ticket@.session_id != session_id || ticket@.read_request_id == 0
                        || ticket@.read_request_id > finished),
            {
                ticket.session_id != session_id || ticket.read_request_id == 0
                    || ticket.read_request_id > finished
            };
            self.downloads.retain(
                wanted,
                Ghost(
                    |id: u64, ticket: DownloadTicket|
                        ticket.session_id != session_id || ticket.read_request_id == 0
                            || ticket.read_request_id > finished,
                ),
            );
        }
        let ghost noted = before.noted(
            session_id,
            released_view_through,
            finished_read_request_through,
        );
        assert(self@ =~= noted);
        if released_write_allocations.len() > 0 && !supported {
            return (
                Err(WorkerError::InvalidArgument("write lease release was not negotiated")),
                Vec::new(),
            );
        }
        match self.return_writes(session_id, released_write_allocations) {
            Some(error) => {
                return (Err(error), Vec::new());
            },
            None => {},
        }
        let ghost returned = self@;
        let waiters: Vec<u64> = self.advance_retirements();
        let ghost settled = self@;
        if !renew_cache {
            assert(returned.advanced(settled, waiters@));
            return (Ok(0), waiters);
        }
        let granted: u64 = self.sessions.grant_lease(
            session_id,
            stream_closed,
            self.metadata_watch_connected,
            self.metadata_lease_until,
            self.client_cache_lease_ttl,
            now,
        );
        assert(returned.advanced(settled, waiters@));
        (Ok(granted), waiters)
    }

    /// Whether something needs a session although it is cut off.
    pub fn session_has_retained_obligations(&self, session_id: u64) -> (needed: bool)
        ensures
            needed == self@.has_obligations(session_id),
    {
        let looking: bool = match self.sessions.sessions.get(&session_id) {
            Some(session) => !session.active_views.is_empty(),
            None => false,
        };
        looking || self.is_needed(session_id)
    }

    fn is_needed(&self, session_id: u64) -> (needed: bool)
        ensures
            needed == (self@.has_download(session_id) || self@.arena.written_by(session_id)),
    {
        let is_its = |id: &u64, ticket: &DownloadTicket| -> (met: bool)
            ensures
                met == (ticket@.session_id == session_id),
        {
            ticket.session_id == session_id
        };
        let ghost test = |id: u64, ticket: DownloadTicket| ticket.session_id == session_id;
        let downloading: bool = self.downloads.any(is_its, Ghost(test));
        proof {
            if downloading {
                let id = choose|id: u64|
                    #![trigger self.downloads@.contains_key(id)]
                    self.downloads@.contains_key(id) && test(id, self.downloads@[id]);
                assert(self@.downloads.contains_key(id));
            } else {
                assert forall|id: u64| #[trigger]
                    self@.downloads.contains_key(id) implies self@.downloads[id].session_id
                    != session_id by {
                    assert(!test(id, self.downloads@[id]));
                }
            }
        }
        downloading || self.arena.session_has_unreturned_write(session_id)
    }

    /// Takes the leases that are over away, and returns who waited for that.
    pub fn expire_cache_leases(&mut self, now: u64) -> (waiters: Vec<u64>)
        requires
            old(self)@.wf(),
        ensures
            final(self)@.wf(),
            final(self)@ == old(self)@.lapsed(now),
            old(self)@.sessions.finishes(old(self)@.sessions.expiry_change(now), waiters@),
    {
        let ghost before = self@;
        let node = &*self;
        let keep = |id: &u64, session: &Session| -> (met: bool)
            ensures
                met == (node@.has_download(id@) || node@.arena.written_by(id@)),
        {
            node.is_needed(*id)
        };
        let ghost test = |id: u64, session: SessionView|
            before.has_download(id) || before.arena.written_by(id);
        let kept = node.sessions.sessions.keys_where(keep, Ghost(test));
        let ghost ids = kept@;
        let ghost wanted = Set::new(
            |id: u64|
                before.sessions.sessions.contains_key(id) && test(
                    id,
                    before.sessions.sessions[id],
                ),
        );
        let mut retained: KeySet<u64> = KeySet::new();
        let mut i: usize = 0;
        assert(ids.take(0).to_set() =~= Set::empty());
        while i < kept.len()
            invariant
                i <= kept@.len(),
                ids == kept@,
                retained@ =~= ids.take(i as int).to_set(),
            decreases kept.len() - i,
        {
            retained.insert(kept[i]);
            proof {
                crate::retirement::lemma_prefix_set(ids, i as int);
            }
            i = i + 1;
        }
        proof {
            assert(ids.take(i as int) =~= ids);
            assert forall|id: u64| #[trigger]
                before.sessions.sessions.contains_key(id) implies retained@.contains(id)
                == before.needed().contains(id) by {
                if before.needed().contains(id) {
                    assert(wanted.contains(id));
                    let j = choose|j: int| #![trigger ids[j]] 0 <= j < ids.len() && ids[j]@ == id;
                    assert(ids[j] == id);
                    assert(ids.contains(id));
                }
                if retained@.contains(id) {
                    let j = choose|j: int| 0 <= j < ids.len() && ids[j] == id;
                    assert(wanted.contains(ids[j]@));
                }
            }
            lemma_lapsed_alike(before.sessions, now, retained@, before.needed());
        }
        self.sessions.expire_cache_leases(now, &retained)
    }

    /// Closes a session. What it staged is dropped; what it may still read stays until its lease
    /// is over. Returns who waited for it.
    pub fn close_session(&mut self, session_id: u64, now: u64) -> (waiters: Vec<u64>)
        requires
            old(self)@.wf(),
        ensures
            final(self)@.wf(),
            final(self)@ == old(self)@.closed(session_id).lapsed(now),
            old(self)@.closed(session_id).sessions.finishes(
                old(self)@.closed(session_id).sessions.expiry_change(now),
                waiters@,
            ),
    {
        let ghost before = self@;
        let mut failed: Vec<u64> = Vec::new();
        failed.push(session_id);
        self.sessions.cut_off(&failed);
        proof {
            let cut = before.sessions.cut_off(failed@.to_set());
            assert forall|id: u64| failed@.to_set().contains(id) == (id == session_id) by {
                if id == session_id {
                    assert(failed@[0] == session_id);
                    assert(failed@.contains(id));
                }
            }
            assert(cut.sessions =~= before.closed(session_id).sessions.sessions);
            assert(cut =~= before.closed(session_id).sessions);
        }
        self.arena.reclaim_session(session_id);
        assert(self@ =~= before.closed(session_id));
        self.expire_cache_leases(now)
    }

    /// Notes that a session has handled every event up to one, and returns who waited for that.
    pub fn acknowledge(&mut self, session_id: u64, sequence: u64) -> (acknowledged: Result<
        Vec<u64>,
        WorkerError,
    >)
        requires
            old(self)@.wf(),
        ensures
            final(self)@.wf(),
            acknowledgement_result(old(self)@, final(self)@, session_id, sequence, acknowledged),
    {
        self.sessions.acknowledge(session_id, sequence)
    }

    /// Whether there are barriers and event numbers left.
    pub fn can_broadcast(&self) -> (left: bool)
        ensures
            left == self@.can_broadcast(),
    {
        let spent = |id: &u64, session: &Session| -> (met: bool)
            ensures
                met == (session@.next_event_sequence == u64::MAX),
        {
            session.next_event_sequence == u64::MAX
        };
        let ghost test = |id: u64, session: SessionView| session.next_event_sequence == u64::MAX;
        let any: bool = self.sessions.sessions.any(spent, Ghost(test));
        self.sessions.next_barrier < u64::MAX && !any
    }

    /// Tells the clients that a key has at least some version. The node itself forgets older
    /// answers first. The caller sends the deliveries, reports those that failed, and may tell
    /// the waiters that their wait is over.
    pub fn broadcast_invalidation(&mut self, key: &Vec<u8>, minimum_version: u64, now: u64) -> (sent:
        Broadcast)
        requires
            old(self)@.wf(),
            old(self)@.can_broadcast(),
        ensures
            final(self)@.wf(),
            final(self)@ == old(self)@.broadcast(key@, minimum_version, now),
            old(self)@.sessions.finishes(old(self)@.sessions.expiry_change(now), sent.waiters@),
            broadcast_sent(old(self)@, key@, minimum_version, now, sent),
    {
        let ghost before = self@;
        self.current_cache.invalidate_before(key, minimum_version);
        let ghost quiet = self@;
        assert(quiet.needed() =~= before.needed());
        let waiters: Vec<u64> = self.expire_cache_leases(now);
        let ghost lapsed = self@;
        assert forall|id: u64| #[trigger] lapsed.sessions.sessions.contains_key(id) implies
            lapsed.sessions.sessions[id].next_event_sequence < u64::MAX by {
            assert(before.sessions.sessions.contains_key(id));
        }
        let (barrier_id, deliveries) = self.sessions.send_invalidation(key, minimum_version);
        Broadcast { barrier_id, deliveries, waiters }
    }

    /// Cuts off the sessions to which an event could not be delivered. What they staged is
    /// dropped; their leases still count.
    pub fn delivery_failed(&mut self, session_ids: &Vec<u64>)
        requires
            old(self)@.wf(),
        ensures
            final(self)@.wf(),
            final(self)@ == (NodeView {
                sessions: old(self)@.sessions.cut_off(session_ids@.to_set()),
                arena: reclaimed_all(old(self)@.arena, session_ids@),
                ..old(self)@
            }),
    {
        self.sessions.cut_off(session_ids);
        let ghost before = self@;
        let mut i: usize = 0;
        assert(session_ids@.take(0) =~= Seq::empty());
        while i < session_ids.len()
            invariant
                i <= session_ids@.len(),
                self@.wf(),
                self@ == (NodeView {
                    arena: reclaimed_all(before.arena, session_ids@.take(i as int)),
                    ..before
                }),
            decreases session_ids.len() - i,
        {
            assert(session_ids@.take(i + 1).drop_last() =~= session_ids@.take(i as int));
            self.arena.reclaim_session(session_ids[i]);
            i = i + 1;
        }
        assert(session_ids@.take(i as int) =~= session_ids@);
    }

    /// Drops what has expired, and returns who waited for that.
    pub fn tick(&mut self, now: u64) -> (waiters: (Vec<u64>, Vec<u64>))
        requires
            old(self)@.wf(),
        ensures
            final(self)@.wf(),
            old(self)@.sessions.finishes(old(self)@.sessions.expiry_change(now), waiters.0@),
            exists|settled: NodeView| #[trigger]
                old(self)@.expired(now).advanced(settled, waiters.1@) && final(self)@ == (NodeView {
                    replicas: lapsed_transfers(settled.replicas, now),
                    ..settled
                }),
    {
        let ghost before = self@;
        let of_leases: Vec<u64> = self.expire_cache_leases(now);
        self.arena.tick(now);
        let fresh = |id: &u64, ticket: &DownloadTicket| -> (met: bool)
            ensures
                met == (ticket@.expires_at > now),
        {
            ticket.expires_at > now
        };
        self.downloads.retain(fresh, Ghost(|id: u64, ticket: DownloadTicket| ticket.expires_at > now));
        assert(self@ =~= before.expired(now));
        let of_retirements: Vec<u64> = self.advance_retirements();
        let ghost settled = self@;
        self.replicas.expire(now);
        assert(self@ =~= NodeView {
            replicas: lapsed_transfers(settled.replicas, now),
            ..settled
        });
        let waiters: (Vec<u64>, Vec<u64>) = (of_leases, of_retirements);
        assert(old(self)@.expired(now).advanced(settled, waiters.1@));
        waiters
    }

    /// Sets memory aside for a session's payload. A mapping of it is given back with the token.
    pub fn allocate_staging(
        &mut self,
        session_id: u64,
        length: u64,
        release_token: Vec<u8>,
        now: u64,
    ) -> (allocated: Result<StagingAllocation, WorkerError>)
        requires
            old(self)@.wf(),
        ensures
            final(self)@.wf(),
            staging_result(
                old(self)@,
                final(self)@,
                session_id,
                length,
                release_token@,
                now,
                allocated,
            ),
    {
        if length == 0 {
            return Err(WorkerError::InvalidArgument("value must not be empty"));
        }
        let shared: bool = match self.sessions.live_session(session_id) {
            Ok(session) => session.shared_memory && self.arena.shared,
            Err(error) => return Err(error),
        };
        if !shared {
            match validate_grpc_payload_bytes(length) {
                Ok(_) => {},
                Err(error) => return Err(error),
            }
        }
        let shown: Vec<u8> = copy_bytes(&release_token);
        match self.arena.allocate(session_id, length, shared, release_token, now) {
            Ok(staging_id) => Ok(
                StagingAllocation {
                    staging_id,
                    transfer_id: staging_id,
                    length,
                    target: if shared {
                        HostAllocationTarget::Shm(
                            ReleasedWriteAllocation {
                                allocation_id: staging_id,
                                release_token: shown,
                            },
                        )
                    } else {
                        HostAllocationTarget::Grpc
                    },
                },
            ),
            Err(error) => Err(map_arena_error(error)),
        }
    }

    /// The right of a session to map a region of shared memory.
    pub fn acquire_region(&self, session_id: u64, region_id: u64) -> (acquired: Result<
        HostRegionGrant,
        WorkerError,
    >)
        ensures
            region_acquired(self@, session_id, region_id, acquired),
    {
        match self.sessions.live_session(session_id) {
            Ok(session) => if !session.shared_memory {
                return Err(WorkerError::UnknownSession);
            },
            Err(error) => return Err(error),
        }
        match self.arena.acquire_region(session_id, region_id) {
            Ok(grant) => Ok(grant),
            Err(error) => Err(map_arena_error(error)),
        }
    }

    /// Fills a staged payload and returns what there is to show for it.
    pub fn upload(&mut self, transfer_id: u64, bytes: Vec<u8>) -> (uploaded: Result<
        HostReceipt,
        WorkerError,
    >)
        requires
            old(self)@.wf(),
        ensures
            final(self)@.wf(),
            upload_result(old(self)@, final(self)@, transfer_id, bytes@, uploaded),
    {
        match validate_grpc_payload_bytes(bytes.len() as u64) {
            Ok(_) => {},
            Err(error) => return Err(error),
        }
        match self.arena.upload(transfer_id, bytes) {
            Ok(receipt) => Ok(receipt),
            Err(error) => Err(map_arena_error(error)),
        }
    }

    /// Takes the bytes that a client wrote to shared memory for what it staged, and returns what
    /// there is to show for them.
    pub fn fill_mapped(&mut self, transfer_id: u64, bytes: Vec<u8>) -> (filled: Result<
        HostReceipt,
        WorkerError,
    >)
        requires
            old(self)@.wf(),
        ensures
            final(self)@.wf(),
            mapped_result(old(self)@, final(self)@, transfer_id, bytes@, filled),
    {
        let sent: bool = match self.arena.stagings.get(&transfer_id) {
            Some(staging) => !staging.shared,
            None => false,
        };
        if sent {
            return Err(WorkerError::InvalidArgument("payload is not written through a mapping"));
        }
        match self.arena.upload(transfer_id, bytes) {
            Ok(receipt) => Ok(receipt),
            Err(error) => Err(map_arena_error(error)),
        }
    }

    /// The receipt that counts for a session.
    pub fn receipt_for_session(&self, session_id: u64, receipt: &HostReceipt) -> (counted: Result<
        HostReceipt,
        WorkerError,
    >)
        ensures
            match counted {
                Ok(counted) => self@.sessions.live(session_id) && counted@ == receipt_for(
                    self@.sessions.sessions[session_id],
                    receipt@,
                ),
                Err(error) => !self@.sessions.live(session_id) && error is UnknownSession,
            },
    {
        let mut counted: HostReceipt = receipt.duplicate();
        match self.sessions.live_session(session_id) {
            Ok(session) => {
                if !session.write_lease_release_supported {
                    let none: Vec<u8> = Vec::new();
                    assert(none@ =~= Seq::empty());
                    counted.release_token = none;
                }
                Ok(counted)
            },
            Err(error) => Err(error),
        }
    }

    /// Drops a staged payload of a session, if it is there.
    pub fn delete_staging(&mut self, session_id: u64, staging_id: u64) -> (deleted: Result<
        (),
        WorkerError,
    >)
        requires
            old(self)@.wf(),
        ensures
            final(self)@.wf(),
            staging_deleted(old(self)@, final(self)@, session_id, staging_id, deleted),
    {
        match self.sessions.live_session(session_id) {
            Ok(_) => {},
            Err(error) => return Err(error),
        }
        self.arena.delete_staging(session_id, staging_id);
        Ok(())
    }

    /// Takes a staged payload of a session out.
    pub fn consume_staging(&mut self, session_id: u64, staging_id: u64, receipt: &HostReceipt) -> (consumed:
        Result<Vec<u8>, WorkerError>)
        requires
            old(self)@.wf(),
        ensures
            final(self)@.wf(),
            staging_consumed(old(self)@, final(self)@, session_id, staging_id, receipt@, consumed),
    {
        let counted: HostReceipt = match self.receipt_for_session(session_id, receipt) {
            Ok(counted) => counted,
            Err(error) => return Err(error),
        };
        match self.arena.take_staging_bytes(session_id, staging_id, &counted) {
            Ok(bytes) => Ok(bytes),
            Err(error) => Err(map_arena_error(error)),
        }
    }

    /// Notes what the metadata service's lease and watch allow. The node's own answers are
    /// forgotten whenever the watch breaks or comes back; what clients may still use is not
    /// touched. Returns what follows for what the node remembers of files and directories.
    pub fn note_metadata_lease(&mut self, valid_until: Option<u64>, watch_connected: Option<bool>) -> (actions:
        Vec<NamespaceAction>)
        requires
            old(self)@.wf(),
        ensures
            final(self)@.wf(),
            final(self)@ == old(self)@.lease_noted(valid_until, watch_connected),
            views(actions@) == watch_actions(watch_connected),
    {
        if let Some(until) = valid_until {
            self.metadata_lease_until = until;
        }
        match watch_connected {
            Some(connected) => self.reset_current_cache_for_watch(connected),
            None => {
                let actions: Vec<NamespaceAction> = Vec::new();
                assert(views(actions@) =~= Seq::empty());
                actions
            },
        }
    }

    /// Forgets the node's own answers because the watch broke or came back. Returns what follows
    /// for what the node remembers of files and directories: all of it is forgotten.
    pub fn reset_current_cache_for_watch(&mut self, connected: bool) -> (actions: Vec<
        NamespaceAction,
    >)
        requires
            old(self)@.wf(),
        ensures
            final(self)@.wf(),
            final(self)@ == (NodeView {
                cache: old(self)@.cache.cleared(),
                metadata_watch_connected: connected,
                ..old(self)@
            }),
            views(actions@) == seq![ActionView::ForgetAll],
    {
        self.current_cache.clear();
        self.metadata_watch_connected = connected;
        let mut actions: Vec<NamespaceAction> = Vec::new();
        actions.push(NamespaceAction::ForgetAll);
        assert(views(actions@) =~= seq![ActionView::ForgetAll]);
        actions
    }
}

/// What setting memory aside for a session's payload does, and what comes of it.
pub open spec fn staging_result(
    before: NodeView,
    after: NodeView,
    session_id: u64,
    length: u64,
    release_token: Seq<u8>,
    now: u64,
    allocated: Result<StagingAllocation, WorkerError>,
) -> bool {
    let shared = before.sessions.sessions[session_id].shared_memory && before.arena.shared;
    if length == 0 {
        after == before && allocated == Err::<StagingAllocation, WorkerError>(
            WorkerError::InvalidArgument("value must not be empty"),
        )
    } else if !before.sessions.live(session_id) {
        after == before && (allocated matches Err(error) && error is UnknownSession)
    } else if !shared && payload_fault(length) is Some {
        after == before && (allocated matches Err(error) && payload_fault(length) == Some(error))
    } else {
        match before.arena.allocated(session_id, length, shared, release_token, now) {
            Ok(arena) => {
                &&& after == (NodeView { arena, ..before })
                &&& allocated matches Ok(made)
                &&& made.staging_id == before.arena.next_allocation
                &&& made.transfer_id == made.staging_id
                &&& made.length == length
                &&& match made.target {
                    HostAllocationTarget::Grpc => !shared,
                    HostAllocationTarget::Shm(mapping) => {
                        &&& shared
                        &&& mapping.allocation_id == made.staging_id
                        &&& mapping.release_token@ == release_token
                    },
                }
            },
            Err(fault) => after == before && (allocated matches Err(error) && arena_error_means(
                fault,
                error,
            )),
        }
    }
}

/// Whether the broadcast has the barrier and the events of an invalidation.
pub open spec fn broadcast_sent(
    before: NodeView,
    key: Seq<u8>,
    minimum_version: u64,
    now: u64,
    sent: Broadcast,
) -> bool {
    let told = before.told_sessions(now);
    &&& sent.barrier_id == (if told.holders(key) == Set::<u64>::empty() {
        None
    } else {
        Some(told.next_barrier)
    })
    &&& exists|ids: Seq<u64>| #[trigger]
        keys_are(ids, told.holders(key)) && views(sent.deliveries@) == events_for(
            told.sessions,
            ids,
            key,
            minimum_version,
        )
}

/// What a heartbeat does and what comes of it.
pub open spec fn heartbeat_result(
    before: NodeView,
    after: NodeView,
    session_id: u64,
    released_view_through: Option<u64>,
    released_writes: Seq<ReleasedWriteAllocation>,
    finished_read_request_through: Option<u64>,
    renew_cache: bool,
    stream_closed: bool,
    now: u64,
    granted: Result<u64, WorkerError>,
    waiters: Seq<u64>,
) -> bool {
    let cleanup = released_view_through is Some || released_writes.len() > 0
        || finished_read_request_through is Some;
    let fault = progress_fault(before.sessions, session_id, released_view_through, cleanup);
    if fault is Some {
        after == before && granted == Err::<u64, WorkerError>(fault->0) && waiters.len() == 0
    } else {
        let noted = before.noted(session_id, released_view_through, finished_read_request_through);
        let returned = returned_all(noted.arena, session_id, released_writes);
        if released_writes.len() > 0
            && !before.sessions.sessions[session_id].write_lease_release_supported {
            after == noted && waiters.len() == 0 && granted == Err::<u64, WorkerError>(
                WorkerError::InvalidArgument("write lease release was not negotiated"),
            )
        } else if returned.1 is Some {
            after == (NodeView { arena: returned.0, ..noted }) && waiters.len() == 0 && (
            granted matches Err(error) && arena_error_means(returned.1->0, error))
        } else {
            exists|settled: NodeView| #[trigger]
                (NodeView { arena: returned.0, ..noted }).advanced(settled, waiters) && (
                if !renew_cache {
                    after == settled && granted == Ok::<u64, WorkerError>(0)
                } else {
                    let millis = lease_millis(
                        settled.sessions.sessions[session_id],
                        stream_closed,
                        settled.metadata_watch_connected,
                        settled.metadata_lease_until,
                        settled.client_cache_lease_ttl,
                        now,
                    );
                    &&& granted == Ok::<u64, WorkerError>(millis)
                    &&& after == (if millis == 0 {
                        settled
                    } else {
                        NodeView {
                            sessions: settled.sessions.with_session(
                                session_id,
                                SessionView {
                                    cache_until: Some(
                                        crate::staging::later(now, millis_to_nanos(millis)),
                                    ),
                                    ..settled.sessions.sessions[session_id]
                                },
                            ),
                            ..settled
                        }
                    })
                })
        }
    }
}

} // verus!
