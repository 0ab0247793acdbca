//! Reads that are answered from what the node remembers of the current versions of values, and
//! reads of what the metadata service has just resolved.
#[allow(unused_imports)]
use crate::bytes::views;
use crate::data_core_read::{CacheRefill, DataCoreMaterializeOutcome, DataCoreReadIntoResult};
#[allow(unused_imports)]
use crate::data_core_read::{view_of, IntoView, ReadIntoView, RefillView};
use crate::error::{can_refresh_cached_location, WorkerError};
#[allow(unused_imports)]
use crate::error::blames_location;
use crate::limits::validate_user_key;
#[allow(unused_imports)]
use crate::limits::key_fault;
use crate::node::NodeState;
#[allow(unused_imports)]
use crate::node::NodeView;
use crate::node_read::{GetOutcome, ReadTicket};
#[allow(unused_imports)]
use crate::node_read::{GetView, TicketView};
use crate::peer_import::PeerPullSpec;
#[allow(unused_imports)]
use crate::peer_import::PullSpecView;
use crate::protocol::{copy_replica_sets, ResolveObjectResponse};
#[allow(unused_imports)]
use crate::protocol::ResolvedView;
#[allow(unused_imports)]
use crate::read_plan::byte_at;
use vstd::prelude::*;

verus! {

/// What came of looking a value up in the cache.
#[derive(Debug, PartialEq, Eq)]
pub enum CachedReadOutcome {
    Ready(ReadTicket),
    /// The cache knows the value, but some blocks have to be pulled first.
    NeedsRemoteBlocks { resolved: ResolveObjectResponse, specs: Vec<PeerPullSpec> },
    /// The cache knows which version is current, but no longer where its blocks are.
    NeedsExactRefresh { version: u64 },
    Miss,
}

/// What came of looking a value up in the cache, as a value.
#[verifier::ext_equal]
pub enum CachedView {
    Ready(TicketView),
    NeedsRemoteBlocks { resolved: ResolvedView, specs: Seq<PullSpecView> },
    NeedsExactRefresh { version: u64 },
    Miss,
}

impl View for CachedReadOutcome {
    type V = CachedView;

    open spec fn view(&self) -> CachedView {
        match *self {
            CachedReadOutcome::Ready(ticket) => CachedView::Ready(ticket@),
            CachedReadOutcome::NeedsRemoteBlocks { resolved, specs } =>
                CachedView::NeedsRemoteBlocks { resolved: resolved@, specs: views(specs@) },
            CachedReadOutcome::NeedsExactRefresh { version } => CachedView::NeedsExactRefresh {
                version,
            },
            CachedReadOutcome::Miss => CachedView::Miss,
        }
    }
}

/// What came of looking a value up in the cache, to read it into a buffer.
#[derive(Debug, PartialEq, Eq)]
pub enum DataCoreCachedReadOutcome {
    Ready(DataCoreReadIntoResult),
    BufferTooSmall { version: u64, required: usize },
    NeedsRemoteBlocks {
        resolved: ResolveObjectResponse,
        specs: Vec<PeerPullSpec>,
        output: Vec<u8>,
    },
    NotFound,
    Miss { output: Vec<u8> },
}

/// What came of looking a value up in the cache, to read it into a buffer, as a value.
#[verifier::ext_equal]
pub enum CachedIntoView {
    Ready(ReadIntoView),
    BufferTooSmall { version: u64, required: usize },
    NeedsRemoteBlocks { resolved: ResolvedView, specs: Seq<PullSpecView>, output: Seq<u8> },
    NotFound,
    Miss { output: Seq<u8> },
}

impl View for DataCoreCachedReadOutcome {
    type V = CachedIntoView;

    open spec fn view(&self) -> CachedIntoView {
        match *self {
            DataCoreCachedReadOutcome::Ready(result) => CachedIntoView::Ready(result@),
            DataCoreCachedReadOutcome::BufferTooSmall { version, required } =>
                CachedIntoView::BufferTooSmall { version, required },
            DataCoreCachedReadOutcome::NeedsRemoteBlocks { resolved, specs, output } =>
                CachedIntoView::NeedsRemoteBlocks {
                resolved: resolved@,
                specs: views(specs@),
                output: output@,
            },
            DataCoreCachedReadOutcome::NotFound => CachedIntoView::NotFound,
            DataCoreCachedReadOutcome::Miss { output } => CachedIntoView::Miss { output: output@ },
        }
    }
}

impl NodeView {
    /// Whether the metadata service keeps the node informed of new versions.
    pub open spec fn informed(self, now: u64) -> bool {
        self.metadata_watch_connected && now < self.metadata_lease_until
    }

    /// The state in which nothing is remembered.
    pub open spec fn forgetting(self) -> NodeView {
        NodeView { cache: self.cache.cleared(), ..self }
    }

    /// What the cache knows of a key, as an answer of the metadata service.
    pub open spec fn remembered_answer(self, key: Seq<u8>) -> ResolvedView {
        ResolvedView {
            layout: Some(self.cache.entries[key].layout),
            block_replicas: self.cache.entries[key].block_replicas,
            current_lease: None,
        }
    }

    /// The state after a look at a key for a session, and what came of it. A session that asks
    /// for a whole value will be told when the value changes.
    pub open spec fn cached(
        self,
        session_id: u64,
        read_scope_id: u64,
        read_request_id: u64,
        key: Seq<u8>,
        node_epoch: u64,
        range: Option<(u64, u64)>,
        clamp: bool,
        max_inline_bytes: u64,
        now: u64,
    ) -> (NodeView, Result<(Option<u64>, CachedView), WorkerError>) {
        let noted = if range is None {
            NodeView {
                sessions: self.sessions.with_session(
                    session_id,
                    self.sessions.sessions[session_id].interested(key),
                ),
                ..self
            }
        } else {
            self
        };
        if key_fault(key) is Some {
            (self, Err(key_fault(key)->0))
        } else if self.request_fault(session_id, read_request_id) is Some {
            (self, Err(self.request_fault(session_id, read_request_id)->0))
        } else if !self.informed(now) {
            (noted.forgetting(), Ok((None, CachedView::Miss)))
        } else {
            let looked = NodeView {
                cache: self.cache.looked_up(key, node_epoch, now),
                ..noted
            };
            let token = self.cache.token();
            if !self.cache.fresh(key, node_epoch, now) {
                (looked, Ok((token, CachedView::Miss)))
            } else {
                let entry = self.cache.entries[key];
                let (next, result) = looked.read_layout(
                    session_id,
                    read_scope_id,
                    read_request_id,
                    entry.layout,
                    entry.block_replicas,
                    range,
                    clamp,
                    max_inline_bytes,
                    now,
                );
                (
                    next,
                    match result {
                        Ok(GetView::Ready(ticket)) => Ok((token, CachedView::Ready(ticket))),
                        Ok(GetView::NeedsRemoteBlocks(specs)) => Ok(
                            (
                                token,
                                CachedView::NeedsRemoteBlocks {
                                    resolved: self.remembered_answer(key),
                                    specs,
                                },
                            ),
                        ),
                        Err(error) => if blames_location(error) {
                            Ok(
                                (
                                    token,
                                    CachedView::NeedsExactRefresh { version: entry.layout.version },
                                ),
                            )
                        } else {
                            Err(error)
                        },
                    },
                )
            }
        }
    }

    /// The state after a look at a key, to read it into a buffer, and what came of it. A read of
    /// a certain version is answered only where that version is the current one.
    pub open spec fn cached_into(
        self,
        read_scope_id: u64,
        key: Seq<u8>,
        node_epoch: u64,
        exact_version: Option<u64>,
        range: Option<(u64, u64)>,
        clamp: bool,
        output: Seq<u8>,
        now: u64,
    ) -> (NodeView, Result<(Option<u64>, CachedIntoView), WorkerError>) {
        if key_fault(key) is Some {
            (self, Err(key_fault(key)->0))
        } else if !self.informed(now) {
            (self.forgetting(), Ok((None, CachedIntoView::Miss { output })))
        } else {
            let looked = NodeView { cache: self.cache.looked_up(key, node_epoch, now), ..self };
            let token = self.cache.token();
            if !self.cache.fresh(key, node_epoch, now) || (exact_version is Some
                && exact_version->0 != self.cache.entries[key].layout.version) {
                (looked, Ok((token, CachedIntoView::Miss { output })))
            } else {
                let resolved = self.remembered_answer(key);
                let (next, result) = looked.materialized_into(
                    read_scope_id,
                    resolved,
                    range,
                    clamp,
                    output,
                    None,
                    false,
                    now,
                );
                (
                    next,
                    match result {
                        Ok(IntoView::Ready(result)) => Ok((token, CachedIntoView::Ready(result))),
                        Ok(IntoView::BufferTooSmall { version, required }) => Ok(
                            (token, CachedIntoView::BufferTooSmall { version, required }),
                        ),
                        Ok(IntoView::NeedsRemoteBlocks(partial)) => Ok(
                            (
                                token,
                                CachedIntoView::NeedsRemoteBlocks {
                                    resolved,
                                    specs: partial.specs,
                                    output: partial.output,
                                },
                            ),
                        ),
                        Ok(IntoView::NotFound) => Ok((token, CachedIntoView::NotFound)),
                        Err(error) => Err(error),
                    },
                )
            }
        }
    }

    /// The state after a read of what the metadata service resolved, and what came of it. What
    /// was read is remembered.
    pub open spec fn read_resolved(
        self,
        session_id: u64,
        read_scope_id: u64,
        read_request_id: u64,
        resolved: ResolvedView,
        range: Option<(u64, u64)>,
        clamp: bool,
        max_inline_bytes: u64,
        refill: Option<RefillView>,
        now: u64,
    ) -> (NodeView, Result<GetView, WorkerError>) {
        match resolved.layout {
            None => (self, Err(WorkerError::NotFound)),
            Some(layout) => {
                let (next, result) = self.read_layout(
                    session_id,
                    read_scope_id,
                    read_request_id,
                    layout,
                    resolved.block_replicas,
                    range,
                    clamp,
                    max_inline_bytes,
                    now,
                );
                if result matches Ok(GetView::Ready(_)) {
                    (next.refilled(refill, resolved, now), result)
                } else {
                    (next, result)
                }
            },
        }
    }
}

/// A read of what the metadata service resolved is a read of that value's layout from the nodes that were
/// named for it. Where there is no value nothing is found. The answer is offered to the cache only once
/// the value was read, and where the read may fill the cache; then it is remembered if it may be. But for
/// the cache, the read leaves nothing else behind than the read of the layout.
pub proof fn a_resolved_value_is_read_and_remembered(
    node: NodeView,
    session_id: u64,
    read_scope_id: u64,
    read_request_id: u64,
    resolved: ResolvedView,
    range: Option<(u64, u64)>,
    clamp: bool,
    max_inline_bytes: u64,
    refill: Option<RefillView>,
    now: u64,
)
    ensures
        ({
            let (next, result) = node.read_resolved(
                session_id,
                read_scope_id,
                read_request_id,
                resolved,
                range,
                clamp,
                max_inline_bytes,
                refill,
                now,
            );
            let (read, ticket) = node.read_layout(
                session_id,
                read_scope_id,
                read_request_id,
                resolved.layout->0,
                resolved.block_replicas,
                range,
                clamp,
                max_inline_bytes,
                now,
            );
            let ready = result matches Ok(GetView::Ready(_));
            &&& resolved.layout is None ==> next == node && result is Err && result->Err_0
                == WorkerError::NotFound
            &&& resolved.layout is Some ==> {
                &&& result == ticket
                &&& next.sessions == read.sessions
                &&& next.downloads == read.downloads
                &&& next.next_transfer == read.next_transfer
            }
            &&& next.arena == node.arena
            &&& next.imports == node.imports
            &&& next.retirements == node.retirements
            &&& next.scopes == node.scopes
            &&& !ready || refill is None ==> next.cache == node.cache
            &&& ready && refill is Some && (node.metadata_watch_connected && now
                < node.metadata_lease_until && resolved.current_lease is Some
                && refill->0.requested_at + resolved.current_lease->0.ttl_millis * 1_000_000
                <= u64::MAX && node.cache.generation == refill->0.token && refill->0.token
                < u64::MAX && resolved.current_lease->0.version == resolved.layout->0.version
                && resolved.current_lease->0.lease_epoch == refill->0.node_epoch && now
                < refill->0.requested_at + resolved.current_lease->0.ttl_millis * 1_000_000 && now
                < refill->0.requested_at + node.cache.ttl && !node.cache.entries.contains_key(
                refill->0.key,
            ) && crate::table::total(
                node.cache.entries.remove(refill->0.key),
                crate::current_cache::entry_weight(),
            ) + crate::current_cache::charge_of(refill->0.key, resolved.layout->0.extents)
                <= node.cache.budget && (forall|i: int|
                #![trigger resolved.layout->0.extents[i]]
                0 <= i < resolved.layout->0.extents.len() ==> !node.retirements.retiring.contains(
                    resolved.layout->0.extents[i].block_id,
                ))) ==> next.cache.entries.contains_key(refill->0.key)
                && next.cache.entries[refill->0.key].layout == resolved.layout->0
        }),
{
    let (read, ticket) = node.read_layout(
        session_id,
        read_scope_id,
        read_request_id,
        resolved.layout->0,
        resolved.block_replicas,
        range,
        clamp,
        max_inline_bytes,
        now,
    );
    if refill is Some {
        if resolved.current_lease is Some && refill->0.requested_at
            + resolved.current_lease->0.ttl_millis * 1_000_000 <= u64::MAX {
            crate::current_cache::an_answer_is_cached_as_it_came_until_its_lease_ends(
                read.cache,
                refill->0.token,
                refill->0.key,
                resolved,
                refill->0.requested_at,
                refill->0.node_epoch,
                now,
                now,
                refill->0.key,
            );
        }
    }
}

/// While the metadata service does not keep the node informed, the cache answers nothing, and it
/// forgets what it knew.
pub proof fn an_uninformed_node_answers_nothing_from_its_cache(
    node: NodeView,
    session_id: u64,
    read_scope_id: u64,
    read_request_id: u64,
    key: Seq<u8>,
    node_epoch: u64,
    range: Option<(u64, u64)>,
    clamp: bool,
    max_inline_bytes: u64,
    output: Seq<u8>,
    exact_version: Option<u64>,
    now: u64,
)
    requires
        !node.informed(now),
    ensures
        ({
            let (next, result) = node.cached(
                session_id,
                read_scope_id,
                read_request_id,
                key,
                node_epoch,
                range,
                clamp,
                max_inline_bytes,
                now,
            );
            result is Ok ==> result->Ok_0 == (None::<u64>, CachedView::Miss)
                && next.cache.entries == Map::<
                Seq<u8>,
                crate::current_cache::CacheEntryView,
            >::empty()
        }),
        ({
            let (next, result) = node.cached_into(
                read_scope_id,
                key,
                node_epoch,
                exact_version,
                range,
                clamp,
                output,
                now,
            );
            result is Ok ==> result->Ok_0 == (None::<u64>, CachedIntoView::Miss { output })
                && next.cache.entries == Map::<
                Seq<u8>,
                crate::current_cache::CacheEntryView,
            >::empty()
        }),
{
}

/// A read of a certain version never gets another version from the cache.
pub proof fn a_cached_read_of_a_version_gives_that_version(
    node: NodeView,
    read_scope_id: u64,
    key: Seq<u8>,
    node_epoch: u64,
    version: u64,
    range: Option<(u64, u64)>,
    clamp: bool,
    output: Seq<u8>,
    now: u64,
)
    ensures
        node.cached_into(
            read_scope_id,
            key,
            node_epoch,
            Some(version),
            range,
            clamp,
            output,
            now,
        ).1 matches Ok((_, CachedIntoView::Ready(result))) ==> result.version == version,
{
}

/// A session with a lease that asks for a whole value, and is not turned away, holds the value's key
/// from then on, whether or not the value was remembered: it is told when the value changes.
pub proof fn a_session_that_asks_for_a_value_is_told_of_the_next_version(
    node: NodeView,
    session_id: u64,
    read_scope_id: u64,
    read_request_id: u64,
    key: Seq<u8>,
    node_epoch: u64,
    clamp: bool,
    max_inline_bytes: u64,
    now: u64,
)
    requires
        node.sessions.sessions.contains_key(session_id),
        node.sessions.sessions[session_id].cache_until is Some,
    ensures
        ({
            let (next, result) = node.cached(
                session_id,
                read_scope_id,
                read_request_id,
                key,
                node_epoch,
                None,
                clamp,
                max_inline_bytes,
                now,
            );
            let after = next.sessions.sessions[session_id];
            result is Ok ==> {
                &&& after.cache_until == node.sessions.sessions[session_id].cache_until
                &&& after.cache_interest_all || after.cached_keys.contains(key)
                &&& next.sessions.holders(key).contains(session_id)
            }
        }),
{
    let (next, result) = node.cached(
        session_id,
        read_scope_id,
        read_request_id,
        key,
        node_epoch,
        None,
        clamp,
        max_inline_bytes,
        now,
    );
    crate::session::a_noted_key_is_held_and_none_is_forgotten(
        node.sessions.sessions[session_id],
        key,
        key,
    );
    if result is Ok {
        assert(next.sessions.holders(key).contains(session_id));
    }
}

/// What the cache answers a session with is what it remembers of the key: the version, and the bytes
/// of that version in the range that was asked for. It answers only while the metadata service keeps
/// the node informed, from an entry of this epoch that has not expired. Where it does not answer, it
/// names the generation in which the metadata service may be asked, or the version whose blocks have
/// to be found again.
pub proof fn a_cached_answer_is_what_is_remembered(
    node: NodeView,
    session_id: u64,
    read_scope_id: u64,
    read_request_id: u64,
    key: Seq<u8>,
    node_epoch: u64,
    range: Option<(u64, u64)>,
    clamp: bool,
    max_inline_bytes: u64,
    now: u64,
)
    requires
        node.arena.wf(),
        node.next_transfer + node.cache.entries[key].layout.extents.len() <= u64::MAX,
    ensures
        ({
            let (next, result) = node.cached(
                session_id,
                read_scope_id,
                read_request_id,
                key,
                node_epoch,
                range,
                clamp,
                max_inline_bytes,
                now,
            );
            let entry = node.cache.entries[key];
            let informed = node.metadata_watch_connected && now < node.metadata_lease_until;
            let known = node.cache.entries.contains_key(key) && now < entry.expires_at
                && entry.node_epoch == node_epoch;
            let value: int = entry.layout.logical_length as int;
            let (from, asked): (int, int) = match range {
                Some((offset, length)) => (offset as int, length as int),
                None => (0, value),
            };
            &&& result matches Ok((token, CachedView::Miss)) ==> !(informed && known) && token
                == if informed && node.cache.generation < u64::MAX {
                Some(node.cache.generation)
            } else {
                None
            }
            &&& result matches Ok((_, CachedView::NeedsRemoteBlocks { resolved, specs }))
                ==> informed && known && resolved.layout == Some(entry.layout)
                && resolved.block_replicas == entry.block_replicas && specs.len() > 0
            &&& result matches Ok((_, CachedView::NeedsExactRefresh { version })) ==> informed
                && known && version == entry.layout.version
            &&& result matches Ok((_, CachedView::Ready(ticket))) ==> {
                let bytes = next.answered(ticket);
                &&& informed && known
                &&& ticket.version == entry.layout.version
                &&& ticket.logical_length == entry.layout.logical_length
                &&& ticket.read_request_id == read_request_id
                &&& !clamp || from + asked <= value ==> bytes.len() == asked
                &&& clamp && from + asked > value ==> bytes.len() == if from <= value {
                    value - from
                } else {
                    0
                }
                &&& forall|i: int|
                    #![trigger bytes[i]]
                    0 <= i < bytes.len() ==> bytes[i] == byte_at(
                        node.arena,
                        entry.layout.extents,
                        from + i,
                    )
            }
            &&& next.arena == node.arena
        }),
{
    let (next, result) = node.cached(
        session_id,
        read_scope_id,
        read_request_id,
        key,
        node_epoch,
        range,
        clamp,
        max_inline_bytes,
        now,
    );
    let entry = node.cache.entries[key];
    let noted = if range is None {
        NodeView {
            sessions: node.sessions.with_session(
                session_id,
                node.sessions.sessions[session_id].interested(key),
            ),
            ..node
        }
    } else {
        node
    };
    let looked = NodeView { cache: node.cache.looked_up(key, node_epoch, now), ..noted };
    if result matches Ok((_, CachedView::Ready(_))) {
        crate::node_read::a_read_gives_the_bytes_that_were_asked_for(
            looked,
            session_id,
            read_scope_id,
            read_request_id,
            entry.layout,
            entry.block_replicas,
            range,
            clamp,
            max_inline_bytes,
            now,
        );
    }
}

/// What the cache reads into a buffer is what it remembers of the key: the version, and the bytes of
/// that version in the range that was asked for, at the buffer's start. It reads only while the
/// metadata service keeps the node informed, from an entry of this epoch that has not expired and
/// that is of the version that was asked for. A buffer that it does not fill comes back as it was.
pub proof fn a_cached_read_into_a_buffer_is_what_is_remembered(
    node: NodeView,
    read_scope_id: u64,
    key: Seq<u8>,
    node_epoch: u64,
    exact_version: Option<u64>,
    range: Option<(u64, u64)>,
    clamp: bool,
    output: Seq<u8>,
    now: u64,
)
    requires
        node.arena.wf(),
    ensures
        ({
            let (next, result) = node.cached_into(
                read_scope_id,
                key,
                node_epoch,
                exact_version,
                range,
                clamp,
                output,
                now,
            );
            let entry = node.cache.entries[key];
            let informed = node.metadata_watch_connected && now < node.metadata_lease_until;
            let known = node.cache.entries.contains_key(key) && now < entry.expires_at
                && entry.node_epoch == node_epoch && (exact_version is None || exact_version
                == Some(entry.layout.version));
            let value: int = entry.layout.logical_length as int;
            let (from, asked): (int, int) = match range {
                Some((offset, length)) => (offset as int, length as int),
                None => (0, value),
            };
            let wanted: int = if from + asked <= value {
                asked
            } else if from <= value {
                value - from
            } else {
                0
            };
            &&& !(result matches Ok((_, CachedIntoView::NotFound)))
            &&& result matches Ok((token, CachedIntoView::Miss { output: given })) ==> !(informed
                && known) && given == output && token == if informed && node.cache.generation
                < u64::MAX {
                Some(node.cache.generation)
            } else {
                None
            }
            &&& result matches Ok((_, CachedIntoView::BufferTooSmall { version, required }))
                ==> informed && known && version == entry.layout.version && required == wanted
                && wanted > output.len()
            &&& result matches Ok((_, CachedIntoView::NeedsRemoteBlocks { resolved, .. }))
                ==> informed && known && resolved.layout == Some(entry.layout)
                && resolved.block_replicas == entry.block_replicas
            &&& result matches Ok((_, CachedIntoView::Ready(read))) ==> {
                &&& informed && known
                &&& read.version == entry.layout.version
                &&& read.logical_length == entry.layout.logical_length
                &&& range is Some && !clamp ==> from + asked <= value
                &&& read.bytes_read == wanted
                &&& read.bytes.len() == output.len()
                &&& forall|i: int|
                    #![trigger read.bytes[i]]
                    0 <= i < wanted ==> read.bytes[i] == byte_at(
                        node.arena,
                        entry.layout.extents,
                        from + i,
                    )
                &&& forall|i: int|
                    #![trigger read.bytes[i]]
                    wanted <= i < output.len() ==> read.bytes[i] == output[i]
            }
            &&& next.arena == node.arena
            &&& next.sessions == node.sessions
            &&& next.downloads == node.downloads
        }),
{
    let looked = NodeView { cache: node.cache.looked_up(key, node_epoch, now), ..node };
    crate::data_core_read::a_read_into_a_buffer_gives_the_bytes_that_were_asked_for(
        looked,
        read_scope_id,
        node.remembered_answer(key),
        range,
        clamp,
        output,
        None,
        false,
        now,
    );
}

impl NodeState {
    /// Looks a key up for a session.
    pub fn get_cached(
        &mut self,
        session_id: u64,
        read_scope_id: u64,
        read_request_id: u64,
        key: &Vec<u8>,
        node_epoch: u64,
        range: Option<(u64, u64)>,
        clamp_range: bool,
        max_inline_bytes: u64,
        now: u64,
    ) -> (found: Result<(Option<u64>, CachedReadOutcome), WorkerError>)
        requires
            old(self)@.wf(),
            old(self)@.cache.entries.contains_key(key@) ==> old(self)@.next_transfer + old(
                self,
            )@.cache.entries[key@].layout.extents.len() <= u64::MAX,
        ensures
            final(self)@.wf(),
            ({
                let (next, result) = old(self)@.cached(
                    session_id,
                    read_scope_id,
                    read_request_id,
                    key@,
                    node_epoch,
                    range,
                    clamp_range,
                    max_inline_bytes,
                    now,
                );
                &&& final(self)@ == next
                &&& match found {
                    Ok((token, outcome)) => result == Ok::<(Option<u64>, CachedView), WorkerError>(
                        (token, outcome@),
                    ),
                    Err(error) => result == Err::<(Option<u64>, CachedView), WorkerError>(error),
                }
            }),
    {
        match validate_user_key(key) {
            Ok(_) => {},
            Err(error) => return Err(error),
        }
        match self.sessions.live_session(session_id) {
            Ok(_) => {},
            Err(error) => return Err(error),
        }
        match self.reject_finished_read_request(session_id, read_request_id) {
            Ok(_) => {},
            Err(error) => return Err(error),
        }
        if range.is_none() {
            match self.sessions.register_cache_interest(session_id, key) {
                Ok(_) => {},
                Err(error) => return Err(error),
            }
        }
        if !self.metadata_watch_connected || now >= self.metadata_lease_until {
            self.current_cache.clear();
            return Ok((None, CachedReadOutcome::Miss));
        }
        let token: Option<u64> = self.current_cache.token();
        let (layout, block_replicas) = match self.current_cache.get(key, node_epoch, now) {
            Some(entry) => (entry.layout.duplicate(), copy_replica_sets(&entry.block_replicas)),
            None => return Ok((token, CachedReadOutcome::Miss)),
        };
        match self.get_resolved_parts(
            session_id,
            read_scope_id,
            read_request_id,
            &layout,
            &block_replicas,
            range,
            clamp_range,
            max_inline_bytes,
            now,
        ) {
            Ok(GetOutcome::Ready(ticket)) => Ok((token, CachedReadOutcome::Ready(ticket))),
            Ok(GetOutcome::NeedsRemoteBlocks(specs)) => Ok(
                (
                    token,
                    CachedReadOutcome::NeedsRemoteBlocks {
                        resolved: ResolveObjectResponse {
                            layout: Some(layout),
                            block_replicas,
                            current_lease: None,
                        },
                        specs,
                    },
                ),
            ),
            Err(error) => if can_refresh_cached_location(&error) {
                Ok((token, CachedReadOutcome::NeedsExactRefresh { version: layout.version }))
            } else {
                Err(error)
            },
        }
    }

    /// Looks a key up, to read it into a buffer.
    pub fn get_cached_for_data_core(
        &mut self,
        read_scope_id: u64,
        key: &Vec<u8>,
        node_epoch: u64,
        exact_version: Option<u64>,
        range: Option<(u64, u64)>,
        clamp_range: bool,
        output: Vec<u8>,
        now: u64,
    ) -> (found: Result<(Option<u64>, DataCoreCachedReadOutcome), WorkerError>)
        requires
            old(self)@.wf(),
        ensures
            final(self)@.wf(),
            ({
                let (next, result) = old(self)@.cached_into(
                    read_scope_id,
                    key@,
                    node_epoch,
                    exact_version,
                    range,
                    clamp_range,
                    output@,
                    now,
                );
                &&& final(self)@ == next
                &&& match found {
                    Ok((token, outcome)) => result == Ok::<
                        (Option<u64>, CachedIntoView),
                        WorkerError,
                    >((token, outcome@)),
                    Err(error) => result == Err::<(Option<u64>, CachedIntoView), WorkerError>(
                        error,
                    ),
                }
            }),
    {
        match validate_user_key(key) {
            Ok(_) => {},
            Err(error) => return Err(error),
        }
        if !self.metadata_watch_connected || now >= self.metadata_lease_until {
            self.current_cache.clear();
            return Ok((None, DataCoreCachedReadOutcome::Miss { output }));
        }
        let token: Option<u64> = self.current_cache.token();
        let resolved: ResolveObjectResponse = match self.current_cache.get(key, node_epoch, now) {
            Some(entry) => {
                if exact_version.is_some() && exact_version != Some(entry.layout.version) {
                    return Ok((token, DataCoreCachedReadOutcome::Miss { output }));
                }
                ResolveObjectResponse {
                    layout: Some(entry.layout.duplicate()),
                    block_replicas: copy_replica_sets(&entry.block_replicas),
                    current_lease: None,
                }
            },
            None => return Ok((token, DataCoreCachedReadOutcome::Miss { output })),
        };
        match self.materialize_resolved_into_for_data_core(
            read_scope_id,
            &resolved,
            range,
            clamp_range,
            output,
            None,
            false,
            now,
        ) {
            Err(error) => Err(error),
            Ok(DataCoreMaterializeOutcome::Ready(result)) => Ok(
                (token, DataCoreCachedReadOutcome::Ready(result)),
            ),
            Ok(DataCoreMaterializeOutcome::BufferTooSmall { version, required }) => Ok(
                (token, DataCoreCachedReadOutcome::BufferTooSmall { version, required }),
            ),
            Ok(DataCoreMaterializeOutcome::NeedsRemoteBlocks(partial)) => Ok(
                (
                    token,
                    DataCoreCachedReadOutcome::NeedsRemoteBlocks {
                        resolved,
                        specs: partial.specs,
                        output: partial.output,
                    },
                ),
            ),
            Ok(DataCoreMaterializeOutcome::NotFound) => Ok(
                (token, DataCoreCachedReadOutcome::NotFound),
            ),
        }
    }

    /// Reads what the metadata service resolved, and remembers it.
    pub fn read_resolved(
        &mut self,
        session_id: u64,
        read_scope_id: u64,
        read_request_id: u64,
        resolved: &ResolveObjectResponse,
        range: Option<(u64, u64)>,
        clamp_range: bool,
        max_inline_bytes: u64,
        cache_refill: Option<CacheRefill>,
        now: u64,
    ) -> (outcome: Result<GetOutcome, WorkerError>)
        requires
            old(self)@.wf(),
            resolved.layout matches Some(layout) ==> old(self)@.next_transfer
                + layout.extents@.len() <= u64::MAX,
        ensures
            final(self)@.wf(),
            ({
                let (next, result) = old(self)@.read_resolved(
                    session_id,
                    read_scope_id,
                    read_request_id,
                    resolved@,
                    range,
                    clamp_range,
                    max_inline_bytes,
                    view_of(cache_refill),
                    now,
                );
                &&& final(self)@ == next
                &&& match outcome {
                    Ok(outcome) => result == Ok::<GetView, WorkerError>(outcome@),
                    Err(error) => result == Err::<GetView, WorkerError>(error),
                }
            }),
    {
        let outcome = self.get_resolved_for_request(
            session_id,
            read_scope_id,
            read_request_id,
            resolved,
            range,
            clamp_range,
            max_inline_bytes,
            now,
        );
        if let Ok(GetOutcome::Ready(_)) = &outcome {
            self.refill_cache(cache_refill, resolved, now);
        }
        outcome
    }

    /// Reads what the metadata service resolved, in no particular request.
    pub fn get_resolved(
        &mut self,
        session_id: u64,
        resolved: &ResolveObjectResponse,
        range: Option<(u64, u64)>,
        max_inline_bytes: u64,
        now: u64,
    ) -> (outcome: Result<GetOutcome, WorkerError>)
        requires
            old(self)@.wf(),
            resolved.layout matches Some(layout) ==> old(self)@.next_transfer
                + layout.extents@.len() <= u64::MAX,
        ensures
            final(self)@.wf(),
            ({
                let (next, result) = old(self)@.read_resolved(
                    session_id,
                    u64::MAX,
                    0,
                    resolved@,
                    range,
                    false,
                    max_inline_bytes,
                    None,
                    now,
                );
                &&& final(self)@ == next
                &&& match outcome {
                    Ok(outcome) => result == Ok::<GetView, WorkerError>(outcome@),
                    Err(error) => result == Err::<GetView, WorkerError>(error),
                }
            }),
    {
        self.get_resolved_for_request(
            session_id,
            u64::MAX,
            0,
            resolved,
            range,
            false,
            max_inline_bytes,
            now,
        )
    }
}

} // verus!
