//! What holds of requests as a whole: what the asker is told, and what is left behind, for every
//! request, whoever asks and whatever state the node is in.
#[allow(unused_imports)]
use crate::bytes::views;
#[allow(unused_imports)]
use crate::cached_read::CachedView;
#[allow(unused_imports)]
use crate::command::NodeCommand;
#[allow(unused_imports)]
use crate::data_core_read::{CacheRefill, IntoView};
#[allow(unused_imports)]
use crate::digest::sha256_of;
#[allow(unused_imports)]
use crate::dispatch::{applied, Applied, Asker, NodeAnswer};
#[allow(unused_imports)]
use crate::inode_reference::ROOT_INODE;
#[allow(unused_imports)]
use crate::node::NodeView;
#[allow(unused_imports)]
use crate::node_read::{GetView, MaterializeView};
#[allow(unused_imports)]
use crate::payload::Payload;
#[allow(unused_imports)]
use crate::peer_import::NODE_MAILBOX_CAPACITY;
#[allow(unused_imports)]
use crate::protocol::ResolveObjectResponse;
#[allow(unused_imports)]
use crate::read_plan::byte_at;
#[allow(unused_imports)]
use crate::replica_transfer::TransferView;
#[allow(unused_imports)]
use crate::table::lists;
#[allow(unused_imports)]
use crate::version_layout::layout_valid;
use vstd::prelude::*;

verus! {

/// A request to write is refused, and changes nothing, while as many writes are under way as the node
/// takes on. Otherwise what it proposes is what it names: its key, its operation, its condition, for
/// its session, with the length and the checksum of its bytes.
pub proof fn a_write_request_proposes_what_it_names(
    before: NodeView,
    command: NodeCommand,
    asker: Asker,
    closed: Set<u64>,
    writes_under_way: usize,
    generations: u64,
    now: u64,
    after: NodeView,
    result: Applied,
)
    requires
        applied(
            before,
            command,
            asker,
            closed,
            writes_under_way,
            generations,
            now,
            after,
            result,
        ),
        !(command is MSet),
    ensures
        result.answer is Value || result.answer is Layout ==> {
            &&& writes_under_way >= 256 ==> after == before
            &&& result.answer matches NodeAnswer::Value(Ok(_)) ==> writes_under_way
                < 256
            &&& result.answer matches NodeAnswer::Layout(Ok(_)) ==> writes_under_way
                < 256
            &&& result.answer matches NodeAnswer::Value(Err(_)) ==> after == before
            &&& result.answer matches NodeAnswer::Layout(Err(_)) ==> after == before
        },
        command matches NodeCommand::SetValue {
            session_id,
            key,
            receipt,
            operation_id,
            condition,
            ..
        } ==> result.answer is Value && (result.answer matches NodeAnswer::Value(Ok(commit))
            ==> commit@.key == key@ && commit@.operation_id == operation_id@ && commit@.condition
            == condition@ && commit@.cache_session_id == Some(session_id) && commit@.length
            == receipt@.length && commit@.checksum == receipt@.digest),
        command matches NodeCommand::SetInline { session_id, key, bytes, operation_id, condition }
            ==> result.answer is Value && (result.answer matches NodeAnswer::Value(Ok(commit))
            ==> commit@.key == key@ && commit@.operation_id == operation_id@ && commit@.condition
            == condition@ && commit@.cache_session_id == Some(session_id) && commit@.length
            == bytes@.len() && commit@.checksum == sha256_of(bytes@)),
        command matches NodeCommand::DataCoreSetInline { key, bytes, operation_id, condition }
            ==> result.answer is Value && (result.answer matches NodeAnswer::Value(Ok(commit))
            ==> commit@.key == key@ && commit@.operation_id == operation_id@ && commit@.condition
            == condition@ && commit@.cache_session_id is None && commit@.length == bytes@.len()
            && commit@.checksum == sha256_of(bytes@)),
        command matches NodeCommand::SetRange { input, resolved } ==> result.answer is Layout && (
        result.answer matches NodeAnswer::Layout(Ok(commit)) ==> commit@.key == input@.key
            && commit@.operation_id == input@.operation_id && commit@.cache_session_id == Some(
            input@.session_id,
        ) && commit@.candidate.logical_length == resolved@.layout->0.logical_length
            && input@.offset + input@.receipt.length <= resolved@.layout->0.logical_length),
        command matches NodeCommand::DataCoreSetRangeInline {
            key,
            offset,
            bytes,
            operation_id,
            resolved,
        } ==> result.answer is Layout && (result.answer matches NodeAnswer::Layout(Ok(commit))
            ==> commit@.key == key@ && commit@.operation_id == operation_id@
            && commit@.cache_session_id is None && commit@.candidate.logical_length
            == resolved@.layout->0.logical_length && offset + bytes@.len()
            <= resolved@.layout->0.logical_length),
{
}

/// A request to prepare a write to a file is for the file that it names, in the version that it was made
/// from, and the file is then as long as it was, or as long as the write reaches if that is longer.
pub proof fn a_prepared_write_reaches_as_far_as_the_request(
    before: NodeView,
    key: Vec<u8>,
    offset: u64,
    bytes: Vec<u8>,
    operation_id: Vec<u8>,
    resolved: ResolveObjectResponse,
    asker: Asker,
    closed: Set<u64>,
    writes_under_way: usize,
    generations: u64,
    now: u64,
    after: NodeView,
    result: Applied,
)
    requires
        applied(
            before,
            (NodeCommand::DataCorePrepareRange { key, offset, bytes, operation_id, resolved }),
            asker,
            closed,
            writes_under_way,
            generations,
            now,
            after,
            result,
        ),
    ensures
        result.answer is Version,
        result.answer matches NodeAnswer::Version(Ok(prepared)) ==> {
            let base = resolved@.layout->0;
            &&& prepared@.object_key == key@
            &&& prepared@.expected_object_version == Some(base.version)
            &&& prepared@.candidate.logical_length == if offset + bytes@.len()
                > base.logical_length {
                offset + bytes@.len()
            } else {
                base.logical_length as int
            }
            &&& layout_valid(prepared@.candidate.logical_length, prepared@.candidate.extents)
        },
        result.answer matches NodeAnswer::Version(Err(_)) ==> after == before,
{
    assert(bytes@.len() == bytes.len());
    if before.file_write_prepared(key@, offset, bytes@, operation_id@, resolved@) is Ok {
        crate::layout_write::a_file_write_never_shortens_the_file(
            before,
            key@,
            offset,
            bytes@,
            operation_id@,
            resolved@,
        );
    }
}

/// A request to set a file's length, or to punch a hole into it, changes nothing of the node. What it
/// prepares is for the file that it names, in the version that it was made from, with the length that
/// was set, or with the length that the file has.
pub proof fn a_relaid_file_is_as_long_as_the_request_says(
    before: NodeView,
    key: Vec<u8>,
    new_length: u64,
    offset: u64,
    length: u64,
    operation_id: Vec<u8>,
    resolved: ResolveObjectResponse,
    asker: Asker,
    closed: Set<u64>,
    writes_under_way: usize,
    generations: u64,
    now: u64,
    after: NodeView,
    result: Applied,
)
    ensures
        applied(
            before,
            (NodeCommand::DataCorePrepareTruncate { key, new_length, operation_id, resolved }),
            asker,
            closed,
            writes_under_way,
            generations,
            now,
            after,
            result,
        ) ==> after == before && result.answer is Version && (
        result.answer matches NodeAnswer::Version(Ok(prepared)) ==> prepared@.object_key == key@
            && prepared@.expected_object_version == Some(resolved@.layout->0.version)
            && prepared@.candidate.logical_length == new_length),
        applied(
            before,
            (NodeCommand::DataCorePreparePunchHole { key, offset, length, operation_id, resolved }),
            asker,
            closed,
            writes_under_way,
            generations,
            now,
            after,
            result,
        ) ==> after == before && result.answer is Version && (
        result.answer matches NodeAnswer::Version(Ok(prepared)) ==> prepared@.object_key == key@
            && prepared@.expected_object_version == Some(resolved@.layout->0.version)
            && prepared@.candidate.logical_length == resolved@.layout->0.logical_length),
{
    crate::layout_write::a_file_gets_the_length_that_was_set(
        before,
        key@,
        new_length,
        operation_id@,
        resolved@,
        0,
    );
    crate::layout_write::a_file_is_punched_where_it_was_asked_for(
        before,
        key@,
        offset,
        length,
        operation_id@,
        resolved@,
        0,
    );
}

/// A request for a reference counts as one lookup, a request to give references back takes away as many
/// as it names, and one to close a handle takes away one. No other inode is touched, and nothing but
/// references is. Whoever asks whether an inode may be used is told whether its lease runs.
pub proof fn a_reference_request_counts_what_it_names(
    before: NodeView,
    command: NodeCommand,
    asker: Asker,
    closed: Set<u64>,
    writes_under_way: usize,
    generations: u64,
    now: u64,
    after: NodeView,
    result: Applied,
    other: u64,
)
    requires
        applied(
            before,
            command,
            asker,
            closed,
            writes_under_way,
            generations,
            now,
            after,
            result,
        ),
        forall|inode: u64| #[trigger] before.references.held(inode) < u64::MAX,
    ensures
        command matches NodeCommand::FilesystemAcquireInodeReference { inode } ==> {
            &&& inode != 1 ==> after.references.held(inode) == before.references.held(inode)
                + 1
            &&& other != inode || inode == 1 ==> after.references.held(other)
                == before.references.held(other)
            &&& after.sessions == before.sessions && after.arena == before.arena
        },
        command matches NodeCommand::FilesystemOpenHandleWithReference { inode } ==> {
            &&& inode != 1 ==> after.references.held(inode) == before.references.held(inode)
                + 1
            &&& other != inode || inode == 1 ==> after.references.held(other)
                == before.references.held(other)
            &&& after.sessions == before.sessions && after.arena == before.arena
        },
        command matches NodeCommand::FilesystemInstallInodeReference { inode, generation, .. } ==> {
            &&& inode != 1 && generation != 0 ==> after.references.held(inode)
                == before.references.held(inode) + 1
            &&& other != inode ==> after.references.held(other) == before.references.held(other)
            &&& after.sessions == before.sessions && after.arena == before.arena
        },
        command matches NodeCommand::FilesystemReleaseInodeReference { inode, count } ==> {
            &&& inode != 1 ==> after.references.held(inode) == if before.references.held(
                inode,
            ) > count {
                before.references.held(inode) - count
            } else {
                0
            }
            &&& other != inode ==> after.references.held(other) == before.references.held(other)
            &&& after.sessions == before.sessions && after.arena == before.arena
            &&& result.answer is Released
        },
        command matches NodeCommand::FilesystemCloseHandleWithReference { inode: Some(inode) }
            ==> {
            &&& inode != 1 && before.references.held(inode) > 0 ==> after.references.held(
                inode,
            ) == before.references.held(inode) - 1
            &&& other != inode ==> after.references.held(other) == before.references.held(other)
            &&& after.sessions == before.sessions && after.arena == before.arena
        },
        command matches NodeCommand::FilesystemHasLiveInodeReference { inode } ==> after == before
            && result.answer == NodeAnswer::Live(
            inode == 1 || (before.references.references.contains_key(inode) && now
                < before.references.references[inode].lease_until),
        ),
        command matches NodeCommand::FilesystemMarkInodeOrphan { inode } ==> after.references.held(
            other,
        ) == before.references.held(other),
        command matches NodeCommand::FilesystemInstallResolvedDentry { resolved, .. } ==> {
            &&& resolved@.inode != 1 && resolved@.reference_generation != 0
                ==> after.references.held(resolved@.inode) == before.references.held(
                resolved@.inode,
            ) + 1
            &&& other != resolved@.inode ==> after.references.held(other)
                == before.references.held(other)
        },
{
    if let NodeCommand::FilesystemInstallResolvedDentry { resolved, .. } = command {
        crate::namespace::only_the_entry_itself_is_held(
            before.references,
            resolved@,
            now,
            resolved@.inode,
        );
        crate::namespace::only_the_entry_itself_is_held(before.references, resolved@, now, other);
    }
}

/// A read whose asker has gone is over: nobody is told anything, and the read keeps no block from being
/// retired any longer.
pub proof fn a_read_that_nobody_waits_for_is_over(
    before: NodeView,
    command: NodeCommand,
    asker: Asker,
    closed: Set<u64>,
    writes_under_way: usize,
    generations: u64,
    now: u64,
    after: NodeView,
    result: Applied,
    scope: u64,
)
    requires
        applied(
            before,
            command,
            asker,
            closed,
            writes_under_way,
            generations,
            now,
            after,
            result,
        ),
        asker.gone,
    ensures
        (command matches NodeCommand::GetResolved { read_scope_id, .. } && read_scope_id == scope)
            || (command matches NodeCommand::GetCached { read_scope_id, .. } && read_scope_id
            == scope) || (command matches NodeCommand::MaterializeResolved { read_scope_id, .. }
            && read_scope_id == scope) || (command matches NodeCommand::DataCoreMaterializeInto {
            read_scope_id,
            ..
        } && read_scope_id == scope) || (command matches NodeCommand::DataCoreGetCached {
            read_scope_id,
            ..
        } && read_scope_id == scope) ==> result.answer is Nobody && !after.scopes.contains(scope)
            && after.sessions == before.sessions && after.cache == before.cache,
{
}

/// A request to read a resolved value gets that version and its bytes in the range that it asked for, with
/// the answer or with its ticket.
pub proof fn a_read_request_gets_what_it_asked_for(
    before: NodeView,
    session_id: u64,
    read_scope_id: u64,
    read_request_id: u64,
    resolved: ResolveObjectResponse,
    range: Option<(u64, u64)>,
    clamp_range: bool,
    max_inline_bytes: u64,
    cache_refill: Option<CacheRefill>,
    asker: Asker,
    closed: Set<u64>,
    writes_under_way: usize,
    generations: u64,
    now: u64,
    after: NodeView,
    result: Applied,
    position: int,
)
    requires
        before.arena.wf(),
        !asker.gone,
        resolved@.layout matches Some(layout) ==> before.next_transfer + layout.extents.len()
            <= u64::MAX,
        applied(
            before,
            (NodeCommand::GetResolved {
                session_id,
                read_scope_id,
                read_request_id,
                resolved,
                range,
                clamp_range,
                max_inline_bytes,
                cache_refill,
            }),
            asker,
            closed,
            writes_under_way,
            generations,
            now,
            after,
            result,
        ),
    ensures
        result.answer matches NodeAnswer::Read(outcome) && (resolved@.layout is None ==> outcome
            is Err) && (outcome matches Ok(read) ==> (read@ matches GetView::Ready(ticket) ==> {
            let layout = resolved@.layout->0;
            let value: int = layout.logical_length as int;
            let (from, asked): (int, int) = match range {
                Some((offset, length)) => (offset as int, length as int),
                None => (0, value),
            };
            let bytes = after.answered(ticket);
            &&& ticket.version == layout.version
            &&& ticket.logical_length == layout.logical_length
            &&& !clamp_range || from + asked <= value ==> bytes.len() == asked
            &&& 0 <= position < bytes.len() ==> bytes[position] == byte_at(
                before.arena,
                layout.extents,
                from + position,
            )
        })),
{
    if let Some(layout) = resolved@.layout {
        let (next, due) = before.read_layout(
            session_id,
            read_scope_id,
            read_request_id,
            layout,
            resolved@.block_replicas,
            range,
            clamp_range,
            max_inline_bytes,
            now,
        );
        if let Ok(GetView::Ready(ticket)) = due {
            crate::node_read::a_read_gives_the_bytes_that_were_asked_for(
                before,
                session_id,
                read_scope_id,
                read_request_id,
                layout,
                resolved@.block_replicas,
                range,
                clamp_range,
                max_inline_bytes,
                now,
            );
            assert(after.answered(ticket) == next.answered(ticket));
        }
    }
}

/// A request to read a resolved value as a whole gets that version and all its bytes.
pub proof fn a_request_for_a_whole_value_gets_all_of_it(
    before: NodeView,
    session_id: u64,
    read_scope_id: u64,
    resolved: ResolveObjectResponse,
    asker: Asker,
    closed: Set<u64>,
    writes_under_way: usize,
    generations: u64,
    now: u64,
    after: NodeView,
    result: Applied,
    position: int,
)
    requires
        before.wf(),
        !asker.gone,
        applied(
            before,
            (NodeCommand::MaterializeResolved { session_id, read_scope_id, resolved }),
            asker,
            closed,
            writes_under_way,
            generations,
            now,
            after,
            result,
        ),
    ensures
        after == before,
        result.answer matches NodeAnswer::Whole(outcome) && (outcome matches Ok(read) ==> (
        read@ matches MaterializeView::Ready { version, bytes } ==> {
            let layout = resolved@.layout->0;
            &&& resolved@.layout is Some
            &&& version == layout.version
            &&& bytes.len() == layout.logical_length
            &&& 0 <= position < bytes.len() ==> bytes[position] == byte_at(
                before.arena,
                layout.extents,
                position,
            )
        })),
{
    if let Ok(MaterializeView::Ready { .. }) = before.materialized(
        session_id,
        read_scope_id,
        resolved@,
    ) {
        crate::node_read::a_whole_read_holds_the_bytes_of_the_value(
            before,
            session_id,
            read_scope_id,
            resolved@,
        );
    }
}

/// A request to read a resolved value into a buffer gets that version and its bytes in the range that it
/// asked for at the buffer's start, and the rest of the buffer as it was.
pub proof fn a_request_with_a_buffer_gets_it_filled(
    before: NodeView,
    read_scope_id: u64,
    resolved: ResolveObjectResponse,
    range: Option<(u64, u64)>,
    clamp_range: bool,
    output: Vec<u8>,
    cache_refill: Option<CacheRefill>,
    prefetch_full_layout: bool,
    asker: Asker,
    closed: Set<u64>,
    writes_under_way: usize,
    generations: u64,
    now: u64,
    after: NodeView,
    result: Applied,
    position: int,
)
    requires
        before.arena.wf(),
        !asker.gone,
        applied(
            before,
            (NodeCommand::DataCoreMaterializeInto {
                read_scope_id,
                resolved,
                range,
                clamp_range,
                output,
                cache_refill,
                prefetch_full_layout,
            }),
            asker,
            closed,
            writes_under_way,
            generations,
            now,
            after,
            result,
        ),
    ensures
        result.answer matches NodeAnswer::Into(outcome) && (outcome matches Ok(read) ==> (
        read@ matches IntoView::Ready(read) ==> {
            let layout = resolved@.layout->0;
            let value: int = layout.logical_length as int;
            let (from, asked): (int, int) = match range {
                Some((offset, length)) => (offset as int, length as int),
                None => (0, value),
            };
            &&& resolved@.layout is Some
            &&& read.version == layout.version
            &&& read.logical_length == layout.logical_length
            &&& !clamp_range || from + asked <= value ==> read.bytes_read == asked
            &&& read.bytes.len() == output@.len()
            &&& 0 <= position < read.bytes_read ==> read.bytes[position] == byte_at(
                before.arena,
                layout.extents,
                from + position,
            )
            &&& read.bytes_read <= position < output@.len() ==> read.bytes[position]
                == output@[position]
        })),
{
    crate::data_core_read::a_read_into_a_buffer_gives_the_bytes_that_were_asked_for(
        before,
        read_scope_id,
        resolved@,
        range,
        clamp_range,
        output@,
        crate::data_core_read::view_of(cache_refill),
        prefetch_full_layout,
        now,
    );
}

/// A request that only asks changes nothing, and one that fails for a session that cannot be used, or
/// for a block, a barrier or a replica that is not there, changes nothing either.
pub proof fn a_request_that_only_asks_changes_nothing(
    before: NodeView,
    command: NodeCommand,
    asker: Asker,
    closed: Set<u64>,
    writes_under_way: usize,
    generations: u64,
    now: u64,
    after: NodeView,
    result: Applied,
)
    requires
        applied(
            before,
            command,
            asker,
            closed,
            writes_under_way,
            generations,
            now,
            after,
            result,
        ),
    ensures
        command is ResourceSummary || command is ValidateSession || command is AcquireRegion
            || command is PeerProbe || command is PeerPullBlock || command is ReplicaStatus
            || command is Delete || command is DataCoreDelete || command is FilesystemGetBinding
            || command is FilesystemGetDentry || command is FilesystemGetHandle
            || command is FilesystemInodeReferenceSnapshot
            || command is FilesystemHasLiveInodeReference ==> after == before && result.broadcast
            is None,
        command is ResourceSummary ==> result.answer == (NodeAnswer::Memory {
            capacity: before.arena.capacity,
            used: before.arena.used,
        }),
        command matches NodeCommand::ValidateSession { session_id } ==> (
        result.answer matches NodeAnswer::Done(valid) && (valid is Ok
            <==> before.sessions.sessions.contains_key(session_id)
            && !before.sessions.sessions[session_id].disconnected)),
        command matches NodeCommand::WaitInvalidation { barrier_id } ==> {
            &&& !before.sessions.barriers.contains_key(barrier_id) ==> after == before && (
            result.answer matches NodeAnswer::Done(Ok(_)))
            &&& before.sessions.barriers.contains_key(barrier_id)
                && before.sessions.barriers[barrier_id].waiter is None ==> result.answer is Later
                && after.sessions.barriers.contains_key(barrier_id)
                && after.sessions.barriers[barrier_id].waiter == Some(asker.waiter)
                && after.sessions.barriers[barrier_id].waiting
                == before.sessions.barriers[barrier_id].waiting
            &&& before.sessions.barriers.contains_key(barrier_id)
                && before.sessions.barriers[barrier_id].waiter is Some ==> after == before && (
            result.answer matches NodeAnswer::Done(Err(_)))
        },
{
}

/// An invalidation that somebody holds the key against is answered only when everybody who holds it has
/// acknowledged it or lost its lease; without holders it is answered at once. Every session whose lease
/// runs and that may have cached the key has one more event.
pub proof fn an_invalidation_waits_for_its_holders(
    before: NodeView,
    key: Vec<u8>,
    minimum_version: u64,
    asker: Asker,
    closed: Set<u64>,
    writes_under_way: usize,
    generations: u64,
    now: u64,
    after: NodeView,
    result: Applied,
    session_id: u64,
)
    requires
        before.wf(),
        before.can_broadcast(),
        applied(
            before,
            (NodeCommand::InvalidateCurrent { key, minimum_version }),
            asker,
            closed,
            writes_under_way,
            generations,
            now,
            after,
            result,
        ),
        before.sessions.sessions.contains_key(session_id),
    ensures
        ({
            let session = before.sessions.sessions[session_id];
            let told = session.cache_until is Some && now < session.cache_until->0 && (
            session.cache_interest_all || session.cached_keys.contains(key@));
            let barrier = before.sessions.next_barrier;
            &&& result.broadcast is Some
            &&& told ==> {
                &&& result.answer is Later
                &&& after.sessions.barriers.contains_key(barrier)
                &&& after.sessions.barriers[barrier].waiting.contains_key(session_id)
                &&& after.sessions.barriers[barrier].waiter == Some(asker.waiter)
                &&& after.sessions.sessions[session_id].next_event_sequence
                    == session.next_event_sequence + 1
            }
            &&& result.broadcast->0.barrier_id is None ==> (result.answer matches NodeAnswer::Done(
                Ok(_),
            ))
            &&& after.cache.entries.contains_key(key@) ==> after.cache.entries[key@].layout.version
                >= minimum_version
        }),
{
    crate::node_session::a_new_version_reaches_every_holder(
        before,
        key@,
        minimum_version,
        now,
        result.broadcast->0,
        session_id,
    );
    let told = before.broadcast(key@, minimum_version, now);
    let barrier = before.sessions.next_barrier;
    if let Some(barrier_id) = result.broadcast->0.barrier_id {
        assert(barrier_id == barrier);
        assert(told.sessions.barriers[barrier].waiter is None);
    }
}

/// A request to look a value up for a session is answered from the cache only with what the cache
/// remembers of the key, in the range that was asked for, while the metadata service keeps the node
/// informed. A session with a lease that asks for a whole value is told when it changes.
pub proof fn a_lookup_request_gets_what_is_remembered(
    before: NodeView,
    session_id: u64,
    read_scope_id: u64,
    read_request_id: u64,
    key: Vec<u8>,
    node_epoch: u64,
    range: Option<(u64, u64)>,
    clamp_range: bool,
    max_inline_bytes: u64,
    asker: Asker,
    closed: Set<u64>,
    writes_under_way: usize,
    generations: u64,
    now: u64,
    after: NodeView,
    result: Applied,
    position: int,
)
    requires
        before.arena.wf(),
        !asker.gone,
        before.next_transfer + before.cache.entries[key@].layout.extents.len() <= u64::MAX,
        applied(
            before,
            (NodeCommand::GetCached {
                session_id,
                read_scope_id,
                read_request_id,
                key,
                node_epoch,
                range,
                clamp_range,
                max_inline_bytes,
            }),
            asker,
            closed,
            writes_under_way,
            generations,
            now,
            after,
            result,
        ),
    ensures
        result.answer matches NodeAnswer::Cached(found) && (found matches Ok((_, outcome)) ==> {
            let entry = before.cache.entries[key@];
            let session = before.sessions.sessions[session_id];
            &&& range is None && session.cache_until is Some ==> after.sessions.holders(
                key@,
            ).contains(session_id)
            &&& outcome@ matches CachedView::Ready(ticket) ==> {
                let bytes = after.answered(ticket);
                let value: int = entry.layout.logical_length as int;
                let (from, asked): (int, int) = match range {
                    Some((offset, length)) => (offset as int, length as int),
                    None => (0, value),
                };
                &&& before.metadata_watch_connected && now < before.metadata_lease_until
                &&& before.cache.entries.contains_key(key@) && now < entry.expires_at
                    && entry.node_epoch == node_epoch
                &&& ticket.version == entry.layout.version
                &&& !clamp_range || from + asked <= value ==> bytes.len() == asked
                &&& 0 <= position < bytes.len() ==> bytes[position] == byte_at(
                    before.arena,
                    entry.layout.extents,
                    from + position,
                )
            }
        }),
{
    crate::cached_read::a_cached_answer_is_what_is_remembered(
        before,
        session_id,
        read_scope_id,
        read_request_id,
        key@,
        node_epoch,
        range,
        clamp_range,
        max_inline_bytes,
        now,
    );
    if range is None && before.sessions.sessions.contains_key(session_id)
        && before.sessions.sessions[session_id].cache_until is Some {
        crate::cached_read::a_session_that_asks_for_a_value_is_told_of_the_next_version(
            before,
            session_id,
            read_scope_id,
            read_request_id,
            key@,
            node_epoch,
            clamp_range,
            max_inline_bytes,
            now,
        );
    }
}

/// Another node that asks for a block, or for a range of it, gets exactly these bytes with their checksum,
/// and its request changes nothing. Bytes that come for a block are kept only if they are what was
/// announced, and the metadata service hears of the block unless it is being retired.
pub proof fn blocks_go_from_node_to_node_as_they_are(
    before: NodeView,
    source_node_id: String,
    block_id: Vec<u8>,
    range: Option<(u64, u64)>,
    bytes: Payload,
    checksum: Vec<u8>,
    length: u64,
    read_scope_id: u64,
    asker: Asker,
    closed: Set<u64>,
    writes_under_way: usize,
    generations: u64,
    now: u64,
    after: NodeView,
    result: Applied,
)
    requires
        before.arena.wf(),
    ensures
        applied(
            before,
            (NodeCommand::PeerPullBlock { source_node_id, block_id, range }),
            asker,
            closed,
            writes_under_way,
            generations,
            now,
            after,
            result,
        ) ==> after == before && (result.answer matches NodeAnswer::Block(served) && (
        served matches Ok(block) ==> {
            let held = before.arena.block_bytes(block_id@);
            &&& before.arena.blocks.contains_key(block_id@)
            &&& block@.block_id == block_id@
            &&& block@.length == held.len()
            &&& block@.checksum == sha256_of(block@.payload)
            &&& range is None ==> block@.payload == held
            &&& range matches Some((offset, count)) ==> offset + count <= held.len()
                && block@.payload == held.subrange(offset as int, offset + count)
        })),
        applied(
            before,
            (NodeCommand::ImportPeerBlock {
                block_id,
                bytes,
                checksum,
                length,
                read_scope_id,
                import_attempt: None,
            }),
            asker,
            closed,
            writes_under_way,
            generations,
            now,
            after,
            result,
        ) ==> (result.answer matches NodeAnswer::Installed(installed) && {
            &&& installed matches Ok(report) ==> {
                &&& length == bytes@.len()
                &&& checksum@.len() == 0 || checksum@ == sha256_of(bytes@)
                &&& after.arena.blocks.contains_key(block_id@)
                &&& after.arena.blocks[block_id@].digest == sha256_of(bytes@)
                &&& !before.arena.blocks.contains_key(block_id@) ==> after.arena.block_bytes(
                    block_id@,
                ) == bytes@
                &&& report <==> !before.retirements.retiring.contains(block_id@)
            }
            &&& installed is Err ==> after == before
        }),
{
    crate::node_import::a_block_is_served_as_it_was_asked_for(
        before,
        source_node_id@,
        block_id@,
        range,
    );
    let held = before.arena.block_bytes(block_id@);
    assert(held.subrange(0, held.len() as int) =~= held);
    crate::node_import::only_the_bytes_that_were_announced_are_taken(
        before,
        read_scope_id,
        block_id@,
        bytes@,
        checksum@,
        length,
    );
}

/// A session that was opened on request can be used under the number that was told, with or without
/// shared memory as was asked; one that was attached has its stream, and one that was closed cannot be
/// used. A heartbeat that is granted some milliseconds lets its session use what it caches for so long.
/// An acknowledgement is noted for its session.
pub proof fn a_session_request_is_for_its_session(
    before: NodeView,
    command: NodeCommand,
    asker: Asker,
    closed: Set<u64>,
    writes_under_way: usize,
    generations: u64,
    now: u64,
    after: NodeView,
    result: Applied,
    other: u64,
)
    requires
        before.wf(),
        now + before.client_cache_lease_ttl <= u64::MAX,
        applied(
            before,
            command,
            asker,
            closed,
            writes_under_way,
            generations,
            now,
            after,
            result,
        ),
    ensures
        command matches NodeCommand::OpenSession { shared_memory, .. } ==> {
            &&& before.sessions.next_session < u64::MAX ==> (result.answer matches NodeAnswer::Number(
                Ok(id),
            ) && id != 0 && !before.sessions.sessions.contains_key(id) && after.sessions.live(id)
                && after.sessions.sessions[id].shared_memory == shared_memory)
            &&& before.sessions.sessions.contains_key(other) ==> after.sessions.sessions.contains_key(
                other,
            ) && after.sessions.sessions[other] == before.sessions.sessions[other]
        },
        command matches NodeCommand::AttachSession { session_id } ==> {
            &&& before.sessions.live(session_id) ==> (result.answer matches NodeAnswer::Done(Ok(_)))
                && after.sessions.sessions[session_id].attached
            &&& !before.sessions.live(session_id) ==> after == before
        },
        command matches NodeCommand::Heartbeat { session_id, renew_cache, .. } ==> (
        result.answer matches NodeAnswer::Number(Ok(millis)) ==> {
            &&& millis > 0 ==> renew_cache && after.sessions.sessions[session_id].cache_until
                == Some((now + millis * 1_000_000) as u64)
            &&& millis == 0 ==> after.sessions.sessions[session_id].cache_until
                == before.sessions.sessions[session_id].cache_until
            &&& other != session_id ==> after.sessions.sessions[other]
                == before.sessions.sessions[other]
        }),
        command matches NodeCommand::CloseSession { session_id } ==> !after.sessions.live(
            session_id,
        ),
        command matches NodeCommand::Acknowledge { session_id, sequence } ==> (
        before.sessions.sessions.contains_key(session_id)
            ==> after.sessions.sessions[session_id].last_ack >= sequence),
{
    match command {
        NodeCommand::OpenSession { shared_memory, supports_write_lease_release } => {
            if let NodeAnswer::Number(opened) = result.answer {
                crate::node_session::an_opened_session_can_be_used(
                    before,
                    after,
                    shared_memory,
                    supports_write_lease_release,
                    opened,
                    0,
                    Ok(()),
                    other,
                );
            }
        },
        NodeCommand::Heartbeat {
            session_id,
            released_view_through,
            released_write_allocations,
            finished_read_request_through,
            renew_cache,
            stream_closed,
        } => {
            if let NodeAnswer::Number(granted) = result.answer {
                crate::node_session::a_heartbeat_renews_its_own_lease(
                    before,
                    after,
                    session_id,
                    released_view_through,
                    released_write_allocations@,
                    finished_read_request_through,
                    renew_cache,
                    stream_closed,
                    now,
                    granted,
                    result.finished@,
                    other,
                );
            }
        },
        NodeCommand::CloseSession { session_id } => {
            let gone = before.closed(session_id);
            if gone.sessions.sessions.contains_key(session_id) {
                assert(gone.sessions.sessions[session_id].disconnected);
            }
        },
        _ => {},
    }
}

/// A batch that is proposed on request is for its session, under its operation, with the keys of its
/// entries in their order; a request to stage a payload gets memory of its own of that length; bytes
/// that are sent for a payload are what it then holds; and a download gives the bytes of its ticket.
pub proof fn a_request_with_a_payload_is_for_that_payload(
    before: NodeView,
    command: NodeCommand,
    asker: Asker,
    closed: Set<u64>,
    writes_under_way: usize,
    generations: u64,
    now: u64,
    after: NodeView,
    result: Applied,
    at: int,
)
    requires
        before.arena.wf(),
        applied(
            before,
            command,
            asker,
            closed,
            writes_under_way,
            generations,
            now,
            after,
            result,
        ),
    ensures
        command matches NodeCommand::MSet { session_id, entries, operation_id } ==> (
        result.answer matches NodeAnswer::Batch(proposed) && (proposed matches Ok(commit) ==> {
            &&& commit@.session_id == session_id
            &&& commit@.operation_id == operation_id@
            &&& commit@.values.len() == entries@.len()
            &&& 0 <= at < entries@.len() ==> commit@.values[at].key == entries@[at]@.key
                && commit@.values[at].length == entries@[at]@.receipt.length
                && commit@.values[at].checksum == entries@[at]@.receipt.digest
            &&& writes_under_way < 256
        })),
        command matches NodeCommand::AllocateStaging { session_id, length, .. } ==> (
        result.answer matches NodeAnswer::Staged(allocated) && (allocated matches Ok(made) ==> {
            &&& made.length == length
            &&& !before.arena.stagings.contains_key(made.staging_id)
            &&& after.arena.stagings.contains_key(made.staging_id)
            &&& after.arena.stagings[made.staging_id].session_id == session_id
            &&& after.arena.stagings[made.staging_id].length == length
        })),
        command matches NodeCommand::Upload { transfer_id, bytes } ==> (
        result.answer matches NodeAnswer::Receipt(uploaded) && (uploaded matches Ok(receipt) ==> {
            &&& after.arena.stagings[transfer_id].payload == Some(bytes@)
            &&& receipt@.digest == sha256_of(bytes@)
            &&& bytes@.len() <= 8388608
        })),
        command matches NodeCommand::FillMapped { transfer_id, bytes } ==> (
        result.answer matches NodeAnswer::Receipt(filled) && (filled matches Ok(receipt) ==> {
            &&& after.arena.stagings[transfer_id].payload == Some(bytes@)
            &&& receipt@.digest == sha256_of(bytes@)
        })),
        command matches NodeCommand::Download { transfer_id } ==> (
        result.answer matches NodeAnswer::Bytes(fetched) && (fetched matches Ok(bytes) ==> {
            let read = before.downloads[transfer_id].read;
            &&& before.downloads.contains_key(transfer_id)
            &&& now <= before.downloads[transfer_id].expires_at
            &&& bytes@ == before.arena.contents[read.handle.allocation_id].subrange(
                read.offset as int,
                read.offset + read.length,
            )
            &&& !after.downloads.contains_key(transfer_id)
        })),
        command matches NodeCommand::ConsumeStaging { session_id, staging_id, .. } ==> (
        result.answer matches NodeAnswer::Bytes(consumed) && (consumed matches Ok(bytes) ==> {
            &&& before.arena.stagings[staging_id].payload == Some(bytes@)
            &&& before.arena.stagings[staging_id].session_id == session_id
            &&& !after.arena.stagings.contains_key(staging_id)
        })),
{
    match command {
        NodeCommand::MSet { session_id, entries, operation_id } => {
            assert(entries@.len() == entries.len());
            let all = views(entries@);
            if before.batch_proposed(session_id, all, operation_id@).1 is Ok {
                if 0 <= at < entries@.len() {
                    crate::batch_write::a_batch_is_proposed_as_it_was_asked_for(
                        before,
                        session_id,
                        all,
                        operation_id@,
                        at,
                    );
                } else {
                    crate::limits::a_batch_in_bounds_is_accepted(all);
                    crate::batch_write::a_batch_is_proposed_as_it_was_asked_for(
                        before,
                        session_id,
                        all,
                        operation_id@,
                        0,
                    );
                }
            }
        },
        NodeCommand::AllocateStaging { session_id, length, release_token } => {
            if let NodeAnswer::Staged(allocated) = result.answer {
                crate::node_session::a_client_stages_what_it_asked_for(
                    before,
                    after,
                    session_id,
                    length,
                    release_token@,
                    now,
                    allocated,
                );
            }
        },
        NodeCommand::Upload { bytes, .. } => {
            assert(bytes@.len() == bytes.len());
        },
        _ => {},
    }
}

/// A request to prepare a retirement closes the blocks that it names to reads that begin later, and is
/// answered only when the reads that had begun have ended; a request to end one is answered only when
/// nothing uses its blocks. A request without a name, or without blocks, fails and changes nothing.
pub proof fn a_retirement_request_is_for_the_blocks_that_it_names(
    before: NodeView,
    retirement_id: Vec<u8>,
    block_ids: Vec<Vec<u8>>,
    asker: Asker,
    closed: Set<u64>,
    writes_under_way: usize,
    generations: u64,
    now: u64,
    after: NodeView,
    result: Applied,
    scope: u64,
)
    requires
        before.wf(),
        applied(
            before,
            (NodeCommand::PrepareBlockRetirement { retirement_id, block_ids }),
            asker,
            closed,
            writes_under_way,
            generations,
            now,
            after,
            result,
        ),
    ensures
        retirement_id@.len() == 0 || block_ids@.len() == 0 ==> after == before && (
        result.answer matches NodeAnswer::Done(Err(_))),
        before.retirements.completed.contains(retirement_id@) && retirement_id@.len() > 0
            && block_ids@.len() > 0 ==> after == before && (result.answer matches NodeAnswer::Done(
            Ok(_),
        )),
        before.scopes.contains(scope) && retirement_id@.len() > 0 && block_ids@.len() > 0
            && !before.retirements.completed.contains(retirement_id@)
            && !before.retirements.pending.contains_key(retirement_id@) ==> {
            &&& result.answer is Later
            &&& after.retirements.pending.contains_key(retirement_id@)
            &&& after.retirements.pending[retirement_id@].block_ids == views(block_ids@)
            &&& !after.retirements.pending[retirement_id@].prepared
            &&& after.retirements.pending[retirement_id@].prepare_waiters.contains(asker.waiter)
        },
{
    let names = views(block_ids@);
    if before.scopes.contains(scope) && retirement_id@.len() > 0 && block_ids@.len() > 0
        && !before.retirements.completed.contains(retirement_id@)
        && !before.retirements.pending.contains_key(retirement_id@) {
        let cutoff = before.last_scope();
        crate::retirement::a_retirement_closes_its_blocks_to_later_reads(
            before.retirements,
            retirement_id@,
            names,
            asker.waiter,
            cutoff,
            names[0],
            scope,
            retirement_id@,
        );
        let asked = NodeView {
            cache: before.cache.invalidated_blocks(names),
            retirements: before.retirements.prepare_asked(
                retirement_id@,
                names,
                asker.waiter,
                cutoff,
            ).0,
            ..before
        };
        assert(asked.retirements.pending[retirement_id@].prepare_waiters[0] == asker.waiter);
        assert(scope <= cutoff);
        assert(!asked.drained(cutoff));
        let (prepared, ended) = choose|prepared: Seq<Seq<u8>>, ended: Seq<Seq<u8>>|
            #![trigger lists(prepared, asked.now_prepared()), lists(ended, asked.now_ended())]
            lists(prepared, asked.now_prepared()) && lists(ended, asked.now_ended()) && after == asked.with_retirements(ended) && result.finished@
                == crate::node::prepare_waiters_of(asked.retirements.pending, prepared)
                + crate::node::final_waiters_of(asked.pending_after(), ended);
        assert(!asked.now_ended().contains(retirement_id@));
        assert(!ended.to_set().contains(retirement_id@));
    }
}

/// A request about a replica is for the replica that it names: one that is prepared waits with its bytes,
/// one that is activated is a block with these bytes, one that is aborted never becomes one, and only
/// what an attempt made goes with it. Other replicas are not touched.
pub proof fn a_replica_request_is_for_its_replica(
    before: NodeView,
    command: NodeCommand,
    asker: Asker,
    closed: Set<u64>,
    writes_under_way: usize,
    generations: u64,
    now: u64,
    after: NodeView,
    result: Applied,
    other: Seq<u8>,
)
    requires
        before.wf(),
        applied(
            before,
            command,
            asker,
            closed,
            writes_under_way,
            generations,
            now,
            after,
            result,
        ),
    ensures
        command matches NodeCommand::PrepareReplica { plan_id, block_id, bytes, length, .. } ==> {
            &&& (result.answer matches NodeAnswer::Replica(Ok(_)))
                && !before.replicas.contains_key(plan_id@) ==> after.replicas.contains_key(plan_id@) && (
            after.replicas[plan_id@] matches TransferView::Prepared {
                block_id: name,
                bytes: held,
                ..
            } && name == block_id@ && held == bytes@) && length == bytes@.len()
            &&& other != plan_id@ ==> after.replicas.contains_key(other)
                == before.replicas.contains_key(other) && after.replicas[other]
                == before.replicas[other]
            &&& after.arena == before.arena && after.sessions == before.sessions
        },
        command matches NodeCommand::ActivateReplica { plan_id } ==> {
            &&& result.answer matches NodeAnswer::Replica(Ok(_)) ==> (
            before.replicas[plan_id@] matches TransferView::Prepared { block_id, bytes, .. } ==> {
                &&& after.arena.blocks.contains_key(block_id)
                &&& !before.arena.blocks.contains_key(block_id) ==> after.arena.block_bytes(
                    block_id,
                ) == bytes
                &&& after.replicas[plan_id@] is Active
            })
            &&& other != plan_id@ ==> after.replicas.contains_key(other)
                == before.replicas.contains_key(other) && after.replicas[other]
                == before.replicas[other]
            &&& after.sessions == before.sessions
        },
        command matches NodeCommand::AbortReplica { plan_id } ==> {
            &&& before.replicas.contains_key(plan_id@) && before.replicas[plan_id@] is Prepared
                ==> after.replicas[plan_id@] is Aborted && (result.answer matches NodeAnswer::Replica(
                Ok(_),
            ))
            &&& other != plan_id@ ==> after.replicas.contains_key(other)
                == before.replicas.contains_key(other) && after.replicas[other]
                == before.replicas[other]
            &&& after.arena == before.arena
        },
        command matches NodeCommand::DiscardReplicaAttempt { plan_id } ==> {
            &&& !after.replicas.contains_key(plan_id@)
            &&& other != plan_id@ ==> after.replicas.contains_key(other)
                == before.replicas.contains_key(other) && after.replicas[other]
                == before.replicas[other]
        },
{
}

/// A request to renew leases lets exactly the references that it names, with their generations, run for
/// as long as it says from now on.
pub proof fn a_renewal_request_renews_what_it_names(
    before: NodeView,
    references: Vec<(u64, u64)>,
    lease_millis: u64,
    asker: Asker,
    closed: Set<u64>,
    writes_under_way: usize,
    generations: u64,
    now: u64,
    after: NodeView,
    result: Applied,
    inode: u64,
)
    requires
        now + lease_millis * 1_000_000 <= u64::MAX,
        applied(
            before,
            (NodeCommand::FilesystemRenewInodeReferenceLeases { references, lease_millis }),
            asker,
            closed,
            writes_under_way,
            generations,
            now,
            after,
            result,
        ),
    ensures
        ({
            let reference = before.references.references[inode];
            &&& after.references.references.contains_key(inode)
                == before.references.references.contains_key(inode)
            &&& after.references.held(inode) == before.references.held(inode)
            &&& before.references.references.contains_key(inode)
                ==> after.references.references[inode].generation == reference.generation
                && after.references.references[inode].lease_until == if references@.contains(
                (inode, reference.generation),
            ) {
                now + lease_millis * 1_000_000
            } else {
                reference.lease_until as int
            }
        }),
{
    assert(crate::current_cache::millis_to_nanos(lease_millis) == lease_millis * 1_000_000);
    crate::inode_reference::a_renewal_changes_only_the_leases_that_it_names(
        before.references,
        references@,
        (now + lease_millis * 1_000_000) as u64,
        inode,
    );
}

} // verus!
