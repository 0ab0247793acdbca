//! The sessions of clients, what they may have cached, and the barriers that hold a write back
//! until every client that may have cached its key has either acknowledged the invalidation or
//! lost the right to use what it cached.
#[allow(unused_imports)]
use crate::bytes::views;
use crate::bytes::copy_bytes;
use crate::error::WorkerError;
#[allow(unused_imports)]
use crate::table::keys_are;
use crate::table::{KeySet, Table};
use vstd::prelude::*;

verus! {

/// The most keys that a session's interest is kept for one by one.
pub const CLIENT_CACHE_INTEREST_KEY_LIMIT: usize = 4096;

/// The most bytes of keys that a session's interest is kept for one by one.
pub const CLIENT_CACHE_INTEREST_BYTES_LIMIT: usize = 262144;

/// How many ids a session id can start from.
pub const SESSION_ID_START_SPACE: u64 = 9223372036854775808;

/// A view of shared memory that a client may be reading.
#[derive(Debug, PartialEq, Eq)]
pub struct ActiveReadView {
    pub read_request_id: u64,
    pub allocation_ids: Vec<u64>,
}

/// A view of shared memory that a client may be reading, as a value.
#[verifier::ext_equal]
pub struct ActiveReadValue {
    pub read_request_id: u64,
    pub allocation_ids: Seq<u64>,
}

impl View for ActiveReadView {
    type V = ActiveReadValue;

    open spec fn view(&self) -> ActiveReadValue {
        ActiveReadValue {
            read_request_id: self.read_request_id,
            allocation_ids: self.allocation_ids@,
        }
    }
}

/// A client's session.
pub struct Session {
    pub epoch: u64,
    pub next_event_sequence: u64,
    /// Whether the client has a stream of events.
    pub attached: bool,
    pub last_ack: u64,
    pub next_view_epoch: u64,
    pub released_view_through: u64,
    pub finished_read_request_through: u64,
    pub active_views: Table<u64, ActiveReadView>,
    pub shared_memory: bool,
    pub write_lease_release_supported: bool,
    /// Until when the client may use what it has cached.
    pub cache_until: Option<u64>,
    pub cached_current_keys: KeySet<Vec<u8>>,
    pub cached_current_key_bytes: usize,
    /// Whether the client may have cached any key.
    pub cache_interest_all: bool,
    pub disconnected: bool,
}

/// A client's session, as a value.
#[verifier::ext_equal]
pub struct SessionView {
    pub epoch: u64,
    pub next_event_sequence: u64,
    pub attached: bool,
    pub last_ack: u64,
    pub next_view_epoch: u64,
    pub released_view_through: u64,
    pub finished_read_request_through: u64,
    pub active_views: Map<u64, ActiveReadValue>,
    pub shared_memory: bool,
    pub write_lease_release_supported: bool,
    pub cache_until: Option<u64>,
    pub cached_keys: Set<Seq<u8>>,
    pub cached_key_bytes: usize,
    pub cache_interest_all: bool,
    pub disconnected: bool,
}

impl View for Session {
    type V = SessionView;

    open spec fn view(&self) -> SessionView {
        SessionView {
            epoch: self.epoch,
            next_event_sequence: self.next_event_sequence,
            attached: self.attached,
            last_ack: self.last_ack,
            next_view_epoch: self.next_view_epoch,
            released_view_through: self.released_view_through,
            finished_read_request_through: self.finished_read_request_through,
            active_views: self.active_views@,
            shared_memory: self.shared_memory,
            write_lease_release_supported: self.write_lease_release_supported,
            cache_until: self.cache_until,
            cached_keys: self.cached_current_keys@,
            cached_key_bytes: self.cached_current_key_bytes,
            cache_interest_all: self.cache_interest_all,
            disconnected: self.disconnected,
        }
    }
}

/// A barrier: who must still acknowledge which event, and who waits for it.
pub struct InvalidationBarrier {
    pub waiting: Table<u64, u64>,
    pub waiter: Option<u64>,
}

/// A barrier, as a value.
#[verifier::ext_equal]
pub struct BarrierView {
    pub waiting: Map<u64, u64>,
    pub waiter: Option<u64>,
}

impl View for InvalidationBarrier {
    type V = BarrierView;

    open spec fn view(&self) -> BarrierView {
        BarrierView { waiting: self.waiting@, waiter: self.waiter }
    }
}

/// What a client is told: its cached answer for a key is older than `minimum_version`.
#[derive(Debug, PartialEq, Eq)]
pub struct InvalidateCurrent {
    pub session_epoch: u64,
    pub event_sequence: u64,
    pub key: Vec<u8>,
    pub minimum_version: u64,
}

/// What a client is told, as a value.
#[verifier::ext_equal]
pub struct EventView {
    pub session_epoch: u64,
    pub event_sequence: u64,
    pub key: Seq<u8>,
    pub minimum_version: u64,
}

impl View for InvalidateCurrent {
    type V = EventView;

    open spec fn view(&self) -> EventView {
        EventView {
            session_epoch: self.session_epoch,
            event_sequence: self.event_sequence,
            key: self.key@,
            minimum_version: self.minimum_version,
        }
    }
}

/// An event and the session that it is for.
pub struct Delivery {
    pub session_id: u64,
    pub event: InvalidateCurrent,
}

impl View for Delivery {
    type V = (u64, EventView);

    open spec fn view(&self) -> (u64, EventView) {
        (self.session_id, self.event@)
    }
}

/// The sessions and the barriers.
pub struct Sessions {
    pub next_session: u64,
    pub next_barrier: u64,
    pub sessions: Table<u64, Session>,
    pub barriers: Table<u64, InvalidationBarrier>,
}

/// The sessions and the barriers, as a value.
#[verifier::ext_equal]
pub struct SessionsView {
    pub next_session: u64,
    pub next_barrier: u64,
    pub sessions: Map<u64, SessionView>,
    pub barriers: Map<u64, BarrierView>,
}

impl View for Sessions {
    type V = SessionsView;

    open spec fn view(&self) -> SessionsView {
        SessionsView {
            next_session: self.next_session,
            next_barrier: self.next_barrier,
            sessions: self.sessions@,
            barriers: self.barriers@,
        }
    }
}

/// The first session id for a random number: from 1 to 2^63.
pub open spec fn session_start(raw: u64) -> u64 {
    (raw % SESSION_ID_START_SPACE + 1) as u64
}

/// The first session id for a random number: never 0, and far from the end of the ids.
pub fn normalize_session_start(raw: u64) -> (start: u64)
    ensures
        start == session_start(raw),
        1 <= start <= SESSION_ID_START_SPACE,
{
    raw % SESSION_ID_START_SPACE + 1
}

/// The first session id is never 0 and lies no further than half way through the ids. A random number of
/// the lower half is only moved on by one, and one of the upper half stands for that of the lower half
/// at the same distance.
pub proof fn a_session_id_starts_far_from_the_end(raw: u64)
    ensures
        1 <= session_start(raw) <= 9223372036854775808,
        raw < 9223372036854775808 ==> session_start(raw) == raw + 1,
        raw >= 9223372036854775808 ==> session_start(raw) == raw - 9223372036854775807,
{
}

/// How many bytes some keys have together.
pub open spec fn key_bytes(keys: Set<Seq<u8>>) -> nat
    decreases keys.len(),
    when keys.finite()
{
    if keys.len() == 0 {
        0
    } else {
        let key = keys.choose();
        key.len() + key_bytes(keys.remove(key))
    }
}

proof fn lemma_key_bytes_remove(keys: Set<Seq<u8>>, key: Seq<u8>)
    requires
        keys.finite(),
        keys.contains(key),
    ensures
        key_bytes(keys) == key.len() + key_bytes(keys.remove(key)),
    decreases keys.len(),
{
    let chosen = keys.choose();
    if chosen != key {
        lemma_key_bytes_remove(keys.remove(chosen), key);
        lemma_key_bytes_remove(keys.remove(key), chosen);
        assert(keys.remove(chosen).remove(key) =~= keys.remove(key).remove(chosen));
    }
}

/// A new key adds its bytes.
proof fn lemma_key_bytes_insert(keys: Set<Seq<u8>>, key: Seq<u8>)
    requires
        keys.finite(),
        !keys.contains(key),
    ensures
        key_bytes(keys.insert(key)) == key.len() + key_bytes(keys),
{
    lemma_key_bytes_remove(keys.insert(key), key);
    assert(keys.insert(key).remove(key) =~= keys);
}

impl SessionView {
    /// Whether what is noted of the session hangs together.
    pub open spec fn wf(self) -> bool {
        &&& self.next_view_epoch >= 1
        &&& self.released_view_through < self.next_view_epoch
        &&& forall|epoch: u64| #[trigger]
            self.active_views.contains_key(epoch) ==> self.released_view_through < epoch
                < self.next_view_epoch
        &&& self.cached_keys.finite()
        &&& self.cached_keys.len() <= CLIENT_CACHE_INTEREST_KEY_LIMIT
        &&& self.cached_key_bytes == key_bytes(self.cached_keys)
        &&& self.cached_key_bytes <= CLIENT_CACHE_INTEREST_BYTES_LIMIT
        &&& self.cache_interest_all ==> self.cached_keys == Set::<Seq<u8>>::empty()
        &&& self.cache_until is None ==> !self.cache_interest_all && self.cached_keys == Set::<
            Seq<u8>,
        >::empty()
    }

    /// Whether the client may have cached a key.
    pub open spec fn may_have_cached(self, key: Seq<u8>) -> bool {
        self.cache_until is Some && (self.cache_interest_all || self.cached_keys.contains(key))
    }

    /// Whether the client's right to use what it cached has ended.
    pub open spec fn lease_over(self, now: u64) -> bool {
        self.cache_until is None || self.cache_until->0 <= now
    }

    /// The session after its lease ended.
    pub open spec fn without_lease(self) -> SessionView {
        SessionView {
            cache_until: None,
            cached_keys: Set::empty(),
            cached_key_bytes: 0,
            cache_interest_all: false,
            ..self
        }
    }

    /// The session after it was given an event.
    pub open spec fn notified(self) -> SessionView {
        SessionView {
            next_event_sequence: if self.next_event_sequence == u64::MAX {
                u64::MAX
            } else {
                (self.next_event_sequence + 1) as u64
            },
            ..self
        }
    }

    /// The session after it lost its stream.
    pub open spec fn cut_off(self) -> SessionView {
        SessionView { disconnected: true, attached: false, ..self }
    }

    /// The session after it gave views back and said which reads have ended.
    pub open spec fn progressed(self, released: Option<u64>, finished: Option<u64>) -> SessionView {
        let first = match released {
            None => self,
            Some(released) => {
                let through = if released > self.released_view_through {
                    released
                } else {
                    self.released_view_through
                };
                SessionView {
                    released_view_through: through,
                    active_views: self.active_views.restrict(
                        Set::new(
                            |epoch: u64| self.active_views.contains_key(epoch) && epoch > through,
                        ),
                    ),
                    ..self
                }
            },
        };
        match finished {
            None => first,
            Some(finished) => {
                let through = if finished > first.finished_read_request_through {
                    finished
                } else {
                    first.finished_read_request_through
                };
                SessionView {
                    finished_read_request_through: through,
                    active_views: first.active_views.restrict(
                        Set::new(
                            |epoch: u64|
                                first.active_views.contains_key(epoch) && (
                                first.active_views[epoch].read_request_id == 0
                                    || first.active_views[epoch].read_request_id > through),
                        ),
                    ),
                    ..first
                }
            },
        }
    }

    /// The session after it was handed a view of shared memory.
    pub open spec fn viewing(self, read_request_id: u64, allocation_ids: Seq<u64>) -> SessionView {
        SessionView {
            next_view_epoch: (self.next_view_epoch + 1) as u64,
            active_views: self.active_views.insert(
                self.next_view_epoch,
                ActiveReadValue { read_request_id, allocation_ids },
            ),
            ..self
        }
    }

    /// The session after it may have cached a key.
    pub open spec fn interested(self, key: Seq<u8>) -> SessionView {
        if self.cache_until is None || self.cache_interest_all || self.cached_keys.contains(key) {
            self
        } else if self.cached_keys.len() >= CLIENT_CACHE_INTEREST_KEY_LIMIT
            || self.cached_key_bytes + key.len() > CLIENT_CACHE_INTEREST_BYTES_LIMIT {
            SessionView {
                cached_keys: Set::empty(),
                cached_key_bytes: 0,
                cache_interest_all: true,
                ..self
            }
        } else {
            SessionView {
                cached_keys: self.cached_keys.insert(key),
                cached_key_bytes: (self.cached_key_bytes + key.len()) as usize,
                ..self
            }
        }
    }
}

/// A session that was just opened.
pub open spec fn opened_session(
    shared_memory: bool,
    supports_write_lease_release: bool,
) -> SessionView {
    SessionView {
        epoch: 1,
        next_event_sequence: 1,
        attached: false,
        last_ack: 0,
        next_view_epoch: 1,
        released_view_through: 0,
        finished_read_request_through: 0,
        active_views: Map::empty(),
        shared_memory,
        write_lease_release_supported: shared_memory && supports_write_lease_release,
        cache_until: None,
        cached_keys: Set::empty(),
        cached_key_bytes: 0,
        cache_interest_all: false,
        disconnected: false,
    }
}

impl BarrierView {
    /// The barrier after a session acknowledged every event up to one.
    pub open spec fn acknowledged(self, session_id: u64, sequence: u64) -> BarrierView {
        if self.waiting.contains_key(session_id) && sequence >= self.waiting[session_id] {
            BarrierView { waiting: self.waiting.remove(session_id), ..self }
        } else {
            self
        }
    }

    /// The barrier after some sessions no longer matter.
    pub open spec fn released_by(self, sessions: Set<u64>) -> BarrierView {
        BarrierView { waiting: self.waiting.remove_keys(sessions), ..self }
    }

    /// Whether nothing holds the barrier any more.
    pub open spec fn done(self) -> bool {
        self.waiting == Map::<u64, u64>::empty()
    }
}

/// The waiters of barriers, in the order of the barriers.
pub open spec fn waiters_of(barriers: Map<u64, BarrierView>, ids: Seq<u64>) -> Seq<u64>
    decreases ids.len(),
{
    if ids.len() == 0 {
        Seq::empty()
    } else {
        let earlier = waiters_of(barriers, ids.drop_last());
        match barriers[ids.last()].waiter {
            Some(waiter) => earlier.push(waiter),
            None => earlier,
        }
    }
}

/// The events of an invalidation for some sessions, in their order. A session without a stream
/// is told nothing.
pub open spec fn events_for(
    sessions: Map<u64, SessionView>,
    ids: Seq<u64>,
    key: Seq<u8>,
    minimum_version: u64,
) -> Seq<(u64, EventView)>
    decreases ids.len(),
{
    if ids.len() == 0 {
        Seq::empty()
    } else {
        let earlier = events_for(sessions, ids.drop_last(), key, minimum_version);
        let session = sessions[ids.last()];
        if session.attached {
            earlier.push(
                (
                    ids.last(),
                    EventView {
                        session_epoch: session.epoch,
                        event_sequence: session.next_event_sequence,
                        key,
                        minimum_version,
                    },
                ),
            )
        } else {
            earlier
        }
    }
}

/// The map with a function applied to each value.
pub open spec fn each<K, V>(map: Map<K, V>, change: spec_fn(K, V) -> V) -> Map<K, V> {
    Map::new(|key: K| map.contains_key(key), |key: K| change(key, map[key]))
}

impl SessionsView {
    /// What is true of the sessions and the barriers at any time.
    pub open spec fn wf(self) -> bool {
        &&& forall|id: u64| #[trigger]
            self.sessions.contains_key(id) ==> 0 < id < self.next_session
                && self.sessions[id].wf()
        &&& forall|id: u64| #[trigger]
            self.barriers.contains_key(id) ==> id < self.next_barrier && !self.barriers[id].done()
        &&& forall|id: u64, session_id: u64|
            #![trigger self.barriers[id].waiting.contains_key(session_id)]
            self.barriers.contains_key(id) && self.barriers[id].waiting.contains_key(session_id)
                ==> self.sessions.contains_key(session_id)
                && self.sessions[session_id].cache_until is Some
                && self.barriers[id].waiting[session_id]
                < self.sessions[session_id].next_event_sequence
    }

    /// Whether a session can be used.
    pub open spec fn live(self, session_id: u64) -> bool {
        self.sessions.contains_key(session_id) && !self.sessions[session_id].disconnected
    }

    /// The id that the next session gets, if there is one left.
    pub open spec fn next_id(self) -> Option<u64> {
        if self.next_session == u64::MAX {
            None
        } else if self.next_session == 0 {
            Some(session_start(0))
        } else {
            Some(self.next_session)
        }
    }

    /// The barriers that are done after a change.
    pub open spec fn done_after(self, change: spec_fn(u64, BarrierView) -> BarrierView) -> Set<u64> {
        Set::new(|id: u64| self.barriers.contains_key(id) && change(id, self.barriers[id]).done())
    }

    /// The barriers after a change, without those that are done.
    pub open spec fn with_barriers(
        self,
        change: spec_fn(u64, BarrierView) -> BarrierView,
    ) -> SessionsView {
        SessionsView {
            barriers: each(self.barriers, change).remove_keys(self.done_after(change)),
            ..self
        }
    }

    /// A session changed.
    pub open spec fn with_session(self, session_id: u64, session: SessionView) -> SessionsView {
        SessionsView { sessions: self.sessions.insert(session_id, session), ..self }
    }

    /// Whether the waiters are those of the barriers that a change finishes, each once.
    pub open spec fn finishes(
        self,
        change: spec_fn(u64, BarrierView) -> BarrierView,
        waiters: Seq<u64>,
    ) -> bool {
        exists|ids: Seq<u64>| #[trigger]
            keys_are(ids, self.done_after(change)) && waiters == waiters_of(self.barriers, ids)
    }

    /// What an acknowledgement does to the barriers.
    pub open spec fn ack_change(session_id: u64, sequence: u64) -> spec_fn(
        u64,
        BarrierView,
    ) -> BarrierView {
        |id: u64, barrier: BarrierView| barrier.acknowledged(session_id, sequence)
    }

    /// The state after an acknowledgement.
    pub open spec fn acknowledged(self, session_id: u64, sequence: u64) -> SessionsView {
        let session = self.sessions[session_id];
        self.with_barriers(Self::ack_change(session_id, sequence)).with_session(
            session_id,
            SessionView {
                last_ack: if sequence > session.last_ack {
                    sequence
                } else {
                    session.last_ack
                },
                ..session
            },
        )
    }

    /// The sessions that may have cached a key.
    pub open spec fn holders(self, key: Seq<u8>) -> Set<u64> {
        Set::new(
            |id: u64| self.sessions.contains_key(id) && self.sessions[id].may_have_cached(key),
        )
    }

    /// The state after an invalidation was sent out: every session that may have cached the key
    /// has one more event, and where there is one, a barrier waits for each of them.
    pub open spec fn invalidated(self, key: Seq<u8>) -> SessionsView {
        let holders = self.holders(key);
        if holders == Set::<u64>::empty() {
            self
        } else {
            SessionsView {
                sessions: each(
                    self.sessions,
                    |id: u64, session: SessionView|
                        if session.may_have_cached(key) {
                            session.notified()
                        } else {
                            session
                        },
                ),
                next_barrier: (self.next_barrier + 1) as u64,
                barriers: self.barriers.insert(
                    self.next_barrier,
                    BarrierView {
                        waiting: Map::new(
                            |id: u64| holders.contains(id),
                            |id: u64| self.sessions[id].next_event_sequence,
                        ),
                        waiter: None,
                    },
                ),
                ..self
            }
        }
    }

    /// The sessions whose lease is over.
    pub open spec fn expired(self, now: u64) -> Set<u64> {
        Set::new(|id: u64| self.sessions.contains_key(id) && self.sessions[id].lease_over(now))
    }

    /// What the end of leases does to the barriers.
    pub open spec fn expiry_change(self, now: u64) -> spec_fn(u64, BarrierView) -> BarrierView {
        |id: u64, barrier: BarrierView| barrier.released_by(self.expired(now))
    }

    /// Whether a session is forgotten when its lease is over: it is cut off, reads nothing, and
    /// nothing else needs it.
    pub open spec fn forgotten(self, id: u64, now: u64, retained: Set<u64>) -> bool {
        &&& self.sessions.contains_key(id)
        &&& self.sessions[id].lease_over(now)
        &&& self.sessions[id].disconnected
        &&& self.sessions[id].active_views == Map::<u64, ActiveReadValue>::empty()
        &&& !retained.contains(id)
    }

    /// The state after the leases that are over were taken away.
    pub open spec fn lapsed(self, now: u64, retained: Set<u64>) -> SessionsView {
        SessionsView {
            sessions: each(
                self.sessions,
                |id: u64, session: SessionView|
                    if session.lease_over(now) {
                        session.without_lease()
                    } else {
                        session
                    },
            ).remove_keys(Set::new(|id: u64| self.forgotten(id, now, retained))),
            ..self.with_barriers(self.expiry_change(now))
        }
    }

    /// The state after some sessions lost their streams.
    pub open spec fn cut_off(self, failed: Set<u64>) -> SessionsView {
        SessionsView {
            sessions: each(
                self.sessions,
                |id: u64, session: SessionView|
                    if failed.contains(id) {
                        session.cut_off()
                    } else {
                        session
                    },
            ),
            ..self
        }
    }
}

/// A new session's id is not 0 and larger than that of every session before it.
pub proof fn a_new_session_id_was_never_used(state: SessionsView, other: u64)
    requires
        state.wf(),
        state.next_id() is Some,
        state.sessions.contains_key(other),
    ensures
        state.next_id()->0 > other,
        state.next_id()->0 != 0,
{
}

/// A barrier stands as long as one of its sessions has neither acknowledged its event nor lost
/// its lease.
pub proof fn a_barrier_stands_while_a_session_holds_it(
    state: SessionsView,
    barrier_id: u64,
    holder: u64,
    session_id: u64,
    sequence: u64,
    now: u64,
    retained: Set<u64>,
)
    requires
        state.wf(),
        state.barriers.contains_key(barrier_id),
        state.barriers[barrier_id].waiting.contains_key(holder),
        state.sessions.contains_key(session_id),
    ensures
        session_id != holder || sequence < state.barriers[barrier_id].waiting[holder]
            ==> state.acknowledged(session_id, sequence).barriers.contains_key(barrier_id)
            && state.acknowledged(session_id, sequence).barriers[barrier_id].waiting.contains_key(
            holder,
        ),
        !state.sessions[holder].lease_over(now) ==> state.lapsed(
            now,
            retained,
        ).barriers.contains_key(barrier_id) && state.lapsed(
            now,
            retained,
        ).barriers[barrier_id].waiting.contains_key(holder),
{
    let barrier = state.barriers[barrier_id];
    let acked = barrier.acknowledged(session_id, sequence);
    let released = barrier.released_by(state.expired(now));
    if acked.waiting.contains_key(holder) {
        assert(!acked.done());
    }
    if released.waiting.contains_key(holder) {
        assert(!released.done());
    }
}

/// Once every lease is over, no barrier is left.
pub proof fn no_barrier_outlives_the_leases(state: SessionsView, now: u64, retained: Set<u64>)
    requires
        state.wf(),
        forall|id: u64| #[trigger]
            state.sessions.contains_key(id) ==> state.sessions[id].lease_over(now),
    ensures
        state.lapsed(now, retained).barriers =~= Map::empty(),
{
    assert forall|id: u64| state.barriers.contains_key(id) implies #[trigger]
        state.barriers[id].released_by(state.expired(now)).done() by {
        let released = state.barriers[id].released_by(state.expired(now));
        assert(released.waiting =~= Map::<u64, u64>::empty()) by {
            assert forall|session_id: u64| state.barriers[id].waiting.contains_key(
                session_id,
            ) implies state.expired(now).contains(session_id) by {}
        }
    }
}

/// A new barrier waits for every session that may have cached the key, and for no other.
pub proof fn a_barrier_waits_for_exactly_the_holders(
    state: SessionsView,
    key: Seq<u8>,
    session_id: u64,
)
    requires
        state.wf(),
        state.next_barrier < u64::MAX,
        state.holders(key) != Set::<u64>::empty(),
    ensures
        state.invalidated(key).barriers[state.next_barrier].waiting.contains_key(session_id)
            <==> state.holders(key).contains(session_id),
{
}

/// A session that notes a key while it has a lease holds the key from then on, and holds every key
/// that it held before. Without a lease it notes nothing. Where the keys become too many or too large,
/// they are given up for all keys at once, and not before.
pub proof fn a_noted_key_is_held_and_none_is_forgotten(
    session: SessionView,
    key: Seq<u8>,
    other: Seq<u8>,
)
    ensures
        ({
            let next = session.interested(key);
            &&& session.cache_until is None ==> next == session
            &&& next.cache_until == session.cache_until
            &&& session.cache_until is Some ==> next.cache_interest_all
                || next.cached_keys.contains(key)
            &&& session.cache_interest_all ==> next.cache_interest_all
            &&& session.cached_keys.contains(other) ==> next.cache_interest_all
                || next.cached_keys.contains(other)
            &&& next.cached_keys.contains(other) ==> other == key || session.cached_keys.contains(
                other,
            )
            &&& next.cache_interest_all && !session.cache_interest_all
                ==> session.cached_keys.len() >= 4096
                || session.cached_key_bytes + key.len() > 262144
            &&& session.cache_until is Some && !session.cache_interest_all
                && !session.cached_keys.contains(key) && (session.cached_keys.len() >= 4096
                || session.cached_key_bytes + key.len() > 262144) ==> next.cache_interest_all
                && next.cached_keys == Set::<Seq<u8>>::empty() && next.cached_key_bytes == 0
            &&& !next.cache_interest_all && !session.cached_keys.contains(key)
                && session.cache_until is Some ==> next.cached_key_bytes == session.cached_key_bytes
                + key.len()
            &&& session.cached_keys.contains(key) ==> next == session
            &&& next.next_event_sequence == session.next_event_sequence
            &&& next.last_ack == session.last_ack
            &&& next.active_views == session.active_views
            &&& next.disconnected == session.disconnected
            &&& next.attached == session.attached
        }),
{
}

/// An invalidation gives every session that has a lease and may have cached the key one more event,
/// and one barrier waits for each of them to acknowledge it. It does nothing to any other session,
/// and nothing to the barriers that were there.
pub proof fn an_invalidation_tells_every_holder_and_waits_for_it(
    state: SessionsView,
    key: Seq<u8>,
    session_id: u64,
    barrier_id: u64,
)
    requires
        state.wf(),
        state.next_barrier < u64::MAX,
        state.sessions.contains_key(session_id),
        state.sessions[session_id].next_event_sequence < u64::MAX,
    ensures
        ({
            let session = state.sessions[session_id];
            let next = state.invalidated(key);
            let told = session.cache_until is Some && (session.cache_interest_all
                || session.cached_keys.contains(key));
            &&& next.sessions.dom() == state.sessions.dom()
            &&& state.holders(key).contains(session_id) <==> told
            &&& told ==> {
                &&& next.sessions[session_id].next_event_sequence == session.next_event_sequence + 1
                &&& next.barriers.contains_key(state.next_barrier)
                &&& next.barriers[state.next_barrier].waiting.contains_key(session_id)
                &&& next.barriers[state.next_barrier].waiting[session_id]
                    == session.next_event_sequence
                &&& next.next_barrier == state.next_barrier + 1
            }
            &&& !told ==> next.sessions[session_id] == session && !(next.barriers.contains_key(
                state.next_barrier,
            ) && next.barriers[state.next_barrier].waiting.contains_key(session_id))
            &&& next.sessions[session_id].cache_until == session.cache_until
            &&& next.sessions[session_id].cached_keys == session.cached_keys
            &&& next.sessions[session_id].cache_interest_all == session.cache_interest_all
            &&& next.sessions[session_id].last_ack == session.last_ack
            &&& next.sessions[session_id].active_views == session.active_views
            &&& state.barriers.contains_key(barrier_id) ==> next.barriers.contains_key(barrier_id)
                && next.barriers[barrier_id] == state.barriers[barrier_id]
        }),
{
    let session = state.sessions[session_id];
    assert(state.invalidated(key).sessions.dom() =~= state.sessions.dom());
    if session.cache_until is Some && (session.cache_interest_all || session.cached_keys.contains(
        key,
    )) {
        assert(state.holders(key).contains(session_id));
    } else if state.barriers.contains_key(state.next_barrier) {
        assert(state.next_barrier < state.next_barrier);
    }
}

/// An acknowledgement takes its session out of the barriers whose event it covers, and out of no
/// other; it takes out no other session. A barrier goes if and only if nobody is left in it.
pub proof fn an_acknowledgement_releases_exactly_what_it_covers(
    state: SessionsView,
    session_id: u64,
    sequence: u64,
    barrier_id: u64,
    holder: u64,
)
    requires
        state.wf(),
        state.sessions.contains_key(session_id),
        state.barriers.contains_key(barrier_id),
    ensures
        ({
            let before = state.barriers[barrier_id].waiting;
            let next = state.acknowledged(session_id, sequence);
            let left = before.contains_key(holder) && (holder != session_id || sequence
                < before[session_id]);
            &&& left ==> next.barriers.contains_key(barrier_id)
                && next.barriers[barrier_id].waiting.contains_key(holder)
                && next.barriers[barrier_id].waiting[holder] == before[holder]
            &&& !left ==> !(next.barriers.contains_key(barrier_id)
                && next.barriers[barrier_id].waiting.contains_key(holder))
            &&& next.barriers.contains_key(barrier_id) ==> exists|other: u64| #[trigger]
                next.barriers[barrier_id].waiting.contains_key(other)
            &&& next.barriers.contains_key(barrier_id) ==> next.barriers[barrier_id].waiter
                == state.barriers[barrier_id].waiter
            &&& next.sessions[session_id].last_ack == if sequence
                > state.sessions[session_id].last_ack {
                sequence
            } else {
                state.sessions[session_id].last_ack
            }
            &&& next.sessions == state.sessions.insert(
                session_id,
                (SessionView {
                    last_ack: next.sessions[session_id].last_ack,
                    ..state.sessions[session_id]
                }),
            )
        }),
{
    let barrier = state.barriers[barrier_id];
    let acked = barrier.acknowledged(session_id, sequence);
    let next = state.acknowledged(session_id, sequence);
    if acked.waiting.contains_key(holder) {
        assert(!acked.done());
    }
    if next.barriers.contains_key(barrier_id) {
        assert(next.barriers[barrier_id] == acked);
        if forall|other: u64| !acked.waiting.contains_key(other) {
            assert(acked.waiting =~= Map::empty());
            assert(acked.done());
        }
    }
}

/// Leases that are over are taken away with all that their sessions held, and their sessions leave
/// every barrier. A session whose lease is not over keeps its lease, its keys and its places. A
/// session goes altogether if and only if its lease is over, its stream is gone, and nothing is left
/// that it reads or that needs it.
pub proof fn leases_end_for_exactly_the_sessions_that_ran_out(
    state: SessionsView,
    now: u64,
    retained: Set<u64>,
    session_id: u64,
    barrier_id: u64,
)
    requires
        state.wf(),
        state.sessions.contains_key(session_id),
    ensures
        ({
            let session = state.sessions[session_id];
            let next = state.lapsed(now, retained);
            let over = session.cache_until is None || session.cache_until->0 <= now;
            let goes = over && session.disconnected && session.active_views == Map::<
                u64,
                ActiveReadValue,
            >::empty() && !retained.contains(session_id);
            &&& next.sessions.contains_key(session_id) <==> !goes
            &&& !over ==> next.sessions[session_id] == session
            &&& over && !goes ==> {
                &&& next.sessions[session_id].cache_until is None
                &&& !next.sessions[session_id].cache_interest_all
                &&& next.sessions[session_id].cached_keys == Set::<Seq<u8>>::empty()
                &&& next.sessions[session_id].active_views == session.active_views
                &&& next.sessions[session_id].next_event_sequence == session.next_event_sequence
                &&& next.sessions[session_id].last_ack == session.last_ack
                &&& next.sessions[session_id].disconnected == session.disconnected
                &&& next.sessions[session_id].attached == session.attached
                &&& next.sessions[session_id].next_view_epoch == session.next_view_epoch
            }
            &&& next.barriers.contains_key(barrier_id) ==> state.barriers.contains_key(barrier_id)
            &&& state.barriers.contains_key(barrier_id) ==> {
                let waits = state.barriers[barrier_id].waiting.contains_key(session_id) && !over;
                &&& waits ==> next.barriers.contains_key(barrier_id)
                    && next.barriers[barrier_id].waiting.contains_key(session_id)
                    && next.barriers[barrier_id].waiting[session_id]
                    == state.barriers[barrier_id].waiting[session_id]
                &&& !waits ==> !(next.barriers.contains_key(barrier_id)
                    && next.barriers[barrier_id].waiting.contains_key(session_id))
            }
            &&& next.next_session == state.next_session
            &&& next.next_barrier == state.next_barrier
        }),
{
    if state.barriers.contains_key(barrier_id) {
        let released = state.barriers[barrier_id].released_by(state.expired(now));
        if released.waiting.contains_key(session_id) {
            assert(!released.done());
        }
    }
}

/// A session that lost its stream cannot be used any more, but what it may have cached is still
/// there: it holds its keys and its places in barriers until its lease is over. Nothing happens to
/// the other sessions.
pub proof fn a_session_without_a_stream_still_holds_its_keys(
    state: SessionsView,
    failed: Set<u64>,
    session_id: u64,
    key: Seq<u8>,
)
    requires
        state.sessions.contains_key(session_id),
    ensures
        ({
            let session = state.sessions[session_id];
            let next = state.cut_off(failed);
            &&& next.sessions.dom() == state.sessions.dom()
            &&& !failed.contains(session_id) ==> next.sessions[session_id] == session
            &&& failed.contains(session_id) ==> !next.live(session_id)
                && !next.sessions[session_id].attached
            &&& state.holders(key).contains(session_id) ==> next.holders(key).contains(session_id)
            &&& next.sessions[session_id].cache_until == session.cache_until
            &&& next.sessions[session_id].active_views == session.active_views
            &&& next.sessions[session_id].next_event_sequence == session.next_event_sequence
            &&& next.barriers == state.barriers
        }),
{
    assert(state.cut_off(failed).sessions.dom() =~= state.sessions.dom());
}

/// What a client is done with goes, and nothing else: a view stays if and only if it is newer than
/// every view that was given back and its read is not among those that have ended.
pub proof fn a_view_stays_until_it_is_given_back_or_its_read_has_ended(
    session: SessionView,
    released: Option<u64>,
    finished: Option<u64>,
    epoch: u64,
)
    requires
        session.wf(),
    ensures
        ({
            let next = session.progressed(released, finished);
            let given_back = released is Some && epoch <= released->0;
            let read = session.active_views[epoch].read_request_id;
            let ended = finished is Some && read != 0 && (read <= finished->0 || read
                <= session.finished_read_request_through);
            &&& next.active_views.contains_key(epoch) <==> session.active_views.contains_key(epoch)
                && !given_back && !ended
            &&& next.active_views.contains_key(epoch) ==> next.active_views[epoch]
                == session.active_views[epoch]
            &&& next.released_view_through == if released is Some && released->0
                > session.released_view_through {
                released->0
            } else {
                session.released_view_through
            }
            &&& next.finished_read_request_through == if finished is Some && finished->0
                > session.finished_read_request_through {
                finished->0
            } else {
                session.finished_read_request_through
            }
            &&& next.next_view_epoch == session.next_view_epoch
            &&& next.cache_until == session.cache_until
            &&& next.cached_keys == session.cached_keys
            &&& next.cache_interest_all == session.cache_interest_all
            &&& next.next_event_sequence == session.next_event_sequence
            &&& next.last_ack == session.last_ack
            &&& next.disconnected == session.disconnected
        }),
{
}

/// A view that a session is handed gets a number that no view of the session had, names the memory
/// that is looked at and the read that looks, and leaves the session's other views alone.
pub proof fn a_new_view_stands_beside_the_others(
    session: SessionView,
    read_request_id: u64,
    allocation_ids: Seq<u64>,
    epoch: u64,
)
    requires
        session.wf(),
        session.next_view_epoch < u64::MAX,
    ensures
        ({
            let next = session.viewing(read_request_id, allocation_ids);
            &&& !session.active_views.contains_key(session.next_view_epoch)
            &&& next.active_views.contains_key(session.next_view_epoch)
            &&& next.active_views[session.next_view_epoch].read_request_id == read_request_id
            &&& next.active_views[session.next_view_epoch].allocation_ids == allocation_ids
            &&& next.next_view_epoch == session.next_view_epoch + 1
            &&& session.active_views.contains_key(epoch) ==> next.active_views.contains_key(epoch)
                && next.active_views[epoch] == session.active_views[epoch]
            &&& next.released_view_through == session.released_view_through
            &&& next.cache_until == session.cache_until
            &&& next.cached_keys == session.cached_keys
            &&& next.wf()
        }),
{
}

/// A session that was just opened can be used, has cached nothing, looks at nothing, and has its
/// first event before it. Memory that it maps it gives back itself only where it shares memory.
pub proof fn a_new_session_holds_nothing(shared_memory: bool, release: bool, key: Seq<u8>)
    ensures
        ({
            let session = opened_session(shared_memory, release);
            &&& session.wf()
            &&& !session.disconnected
            &&& !session.attached
            &&& session.cache_until is None
            &&& !session.cached_keys.contains(key)
            &&& !session.cache_interest_all
            &&& session.active_views == Map::<u64, ActiveReadValue>::empty()
            &&& session.next_event_sequence == 1
            &&& session.last_ack == 0
            &&& session.finished_read_request_through == 0
            &&& session.shared_memory == shared_memory
            &&& session.write_lease_release_supported <==> shared_memory && release
        }),
{
}

/// An acknowledgement never takes back an earlier one.
pub proof fn acknowledgements_never_go_back(state: SessionsView, session_id: u64, sequence: u64)
    requires
        state.sessions.contains_key(session_id),
    ensures
        state.acknowledged(session_id, sequence).sessions[session_id].last_ack
            >= state.sessions[session_id].last_ack,
        state.acknowledged(session_id, sequence).sessions[session_id].last_ack >= sequence,
{
}

/// What a client says it is done with only grows, and it takes away nothing but what is done with.
pub proof fn progress_never_goes_back(
    session: SessionView,
    released: Option<u64>,
    finished: Option<u64>,
)
    ensures
        ({
            let next = session.progressed(released, finished);
            &&& next.released_view_through >= session.released_view_through
            &&& next.finished_read_request_through >= session.finished_read_request_through
            &&& released is Some ==> next.released_view_through >= released->0
            &&& finished is Some ==> next.finished_read_request_through >= finished->0
            &&& forall|epoch: u64| #[trigger]
                next.active_views.contains_key(epoch) ==> session.active_views.contains_key(epoch)
                    && next.active_views[epoch] == session.active_views[epoch]
            &&& forall|epoch: u64| #[trigger]
                session.active_views.contains_key(epoch) && !next.active_views.contains_key(epoch)
                    ==> epoch <= next.released_view_through || (finished is Some
                    && session.active_views[epoch].read_request_id
                    <= next.finished_read_request_through
                    && session.active_views[epoch].read_request_id != 0)
        }),
{
}

/// Takes some sessions out of a barrier.
fn release_from(barrier: InvalidationBarrier, sessions: &Vec<u64>) -> (released:
    InvalidationBarrier)
    ensures
        released@ == barrier@.released_by(sessions@.to_set()),
{
    let ghost before = barrier@;
    let mut waiting = barrier.waiting;
    let mut i: usize = 0;
    assert(waiting@ =~= before.waiting.remove_keys(sessions@.take(0).to_set()));
    while i < sessions.len()
        invariant
            i <= sessions@.len(),
            waiting@ =~= before.waiting.remove_keys(sessions@.take(i as int).to_set()),
        decreases sessions.len() - i,
    {
        let _ = waiting.remove(&sessions[i]);
        proof {
            assert(sessions@.take(i + 1) =~= sessions@.take(i as int).push(sessions@[i as int]));
            assert forall|id: u64| sessions@.take(i + 1).to_set().contains(id) == (sessions@.take(
                i as int,
            ).to_set().contains(id) || id == sessions@[i as int]) by {
                let longer = sessions@.take(i + 1);
                let shorter = sessions@.take(i as int);
                if shorter.contains(id) {
                    let j = choose|j: int| 0 <= j < shorter.len() && shorter[j] == id;
                    assert(longer[j] == id);
                }
                if id == sessions@[i as int] {
                    assert(longer[i as int] == id);
                }
                if longer.contains(id) && id != sessions@[i as int] {
                    let j = choose|j: int| 0 <= j < longer.len() && longer[j] == id;
                    assert(shorter[j] == id);
                }
            }
        }
        i = i + 1;
    }
    assert(sessions@.take(i as int) =~= sessions@);
    InvalidationBarrier { waiting, waiter: barrier.waiter }
}

impl Sessions {
    /// No sessions. The first id comes from a random number.
    pub fn new(raw_start: u64) -> (state: Self)
        ensures
            state@.wf(),
            state@ == (SessionsView {
                next_session: session_start(raw_start),
                next_barrier: 1,
                sessions: Map::empty(),
                barriers: Map::empty(),
            }),
    {
        Sessions {
            next_session: normalize_session_start(raw_start),
            next_barrier: 1,
            sessions: Table::new(),
            barriers: Table::new(),
        }
    }

    /// The id of the next session. No id is given out twice, and 0 never.
    pub fn next_session_id(&mut self) -> (next: Result<u64, WorkerError>)
        requires
            old(self)@.wf(),
        ensures
            final(self)@.wf(),
            match next {
                Ok(id) => {
                    &&& old(self)@.next_id() == Some(id)
                    &&& final(self)@ == (SessionsView {
                        next_session: (id + 1) as u64,
                        ..old(self)@
                    })
                },
                Err(error) => {
                    &&& old(self)@.next_id() is None
                    &&& error is ResourceExhausted
                    &&& final(self)@ == old(self)@
                },
            },
    {
        if self.next_session == u64::MAX {
            return Err(WorkerError::ResourceExhausted);
        }
        let id: u64 = if self.next_session == 0 {
            normalize_session_start(0)
        } else {
            self.next_session
        };
        self.next_session = id + 1;
        Ok(id)
    }

    /// Opens a session.
    pub fn open_session_with_write_release(
        &mut self,
        shared_memory: bool,
        supports_write_lease_release: bool,
    ) -> (opened: Result<u64, WorkerError>)
        requires
            old(self)@.wf(),
        ensures
            final(self)@.wf(),
            match opened {
                Ok(id) => {
                    &&& old(self)@.next_id() == Some(id)
                    &&& final(self)@ == (SessionsView {
                        next_session: (id + 1) as u64,
                        ..old(self)@
                    }).with_session(
                        id,
                        opened_session(shared_memory, supports_write_lease_release),
                    )
                },
                Err(error) => {
                    &&& old(self)@.next_id() is None
                    &&& error is ResourceExhausted
                    &&& final(self)@ == old(self)@
                },
            },
    {
        let id: u64 = match self.next_session_id() {
            Ok(id) => id,
            Err(error) => return Err(error),
        };
        self.sessions.insert(
            id,
            Session {
                epoch: 1,
                next_event_sequence: 1,
                attached: false,
                last_ack: 0,
                next_view_epoch: 1,
                released_view_through: 0,
                finished_read_request_through: 0,
                active_views: Table::new(),
                shared_memory,
                write_lease_release_supported: shared_memory && supports_write_lease_release,
                cache_until: None,
                cached_current_keys: KeySet::new(),
                cached_current_key_bytes: 0,
                cache_interest_all: false,
                disconnected: false,
            },
        );
        Ok(id)
    }

    /// Fails where a session cannot be used.
    pub fn live_session(&self, session_id: u64) -> (live: Result<&Session, WorkerError>)
        ensures
            match live {
                Ok(session) => self@.live(session_id) && session@ == self@.sessions[session_id],
                Err(error) => !self@.live(session_id) && error is UnknownSession,
            },
    {
        match self.sessions.get(&session_id) {
            Some(session) => if session.disconnected {
                Err(WorkerError::UnknownSession)
            } else {
                Ok(session)
            },
            None => Err(WorkerError::UnknownSession),
        }
    }

    /// Gives a session a stream of events.
    pub fn attach_session(&mut self, session_id: u64) -> (attached: Result<(), WorkerError>)
        requires
            old(self)@.wf(),
        ensures
            final(self)@.wf(),
            match attached {
                Ok(_) => {
                    &&& old(self)@.live(session_id)
                    &&& final(self)@ == old(self)@.with_session(
                        session_id,
                        (SessionView { attached: true, ..old(self)@.sessions[session_id] }),
                    )
                },
                Err(error) => {
                    &&& !old(self)@.live(session_id)
                    &&& error is UnknownSession
                    &&& final(self)@ == old(self)@
                },
            },
    {
        let ghost before = self@;
        match self.live_session(session_id) {
            Ok(_) => {},
            Err(error) => return Err(error),
        }
        match self.sessions.remove(&session_id) {
            None => Err(WorkerError::UnknownSession),
            Some(session) => {
                let attached = Session { attached: true, ..session };
                self.sessions.insert(session_id, attached);
                assert(self@.sessions =~= before.sessions.insert(session_id, attached@));
                Ok(())
            },
        }
    }

    /// Notes which views a session gave back and which reads have ended, and says whether it may
    /// give writable mappings back. A session that is cut off can only do these things.
    pub fn note_progress(
        &mut self,
        session_id: u64,
        released_view_through: Option<u64>,
        finished_read_request_through: Option<u64>,
        cleanup_only: bool,
    ) -> (noted: Result<bool, WorkerError>)
        requires
            old(self)@.wf(),
        ensures
            final(self)@.wf(),
            match noted {
                Ok(supported) => {
                    &&& progress_fault(
                        old(self)@,
                        session_id,
                        released_view_through,
                        cleanup_only,
                    ) is None
                    &&& supported == old(self)@.sessions[session_id].write_lease_release_supported
                    &&& final(self)@ == old(self)@.with_session(
                        session_id,
                        old(self)@.sessions[session_id].progressed(
                            released_view_through,
                            finished_read_request_through,
                        ),
                    )
                },
                Err(error) => {
                    &&& progress_fault(
                        old(self)@,
                        session_id,
                        released_view_through,
                        cleanup_only,
                    ) == Some(error)
                    &&& final(self)@ == old(self)@
                },
            },
    {
        let ghost before = self@;
        match self.sessions.get(&session_id) {
            None => return Err(WorkerError::UnknownSession),
            Some(session) => {
                if session.disconnected && !cleanup_only {
                    return Err(WorkerError::UnknownSession);
                }
                if let Some(released) = released_view_through {
                    if released > session.next_view_epoch.saturating_sub(1) {
                        return Err(
                            WorkerError::InvalidArgument(
                                "released view watermark exceeds granted views",
                            ),
                        );
                    }
                }
            },
        }
        match self.sessions.remove(&session_id) {
            None => Err(WorkerError::UnknownSession),
            Some(session) => {
                let mut session = session;
                let ghost entry = session@;
                if let Some(released) = released_view_through {
                    if released > session.released_view_through {
                        session.released_view_through = released;
                    }
                    let through: u64 = session.released_view_through;
                    let held = |epoch: &u64, view: &ActiveReadView| -> (met: bool)
                        ensures
                            met == (*epoch > through),
                    {
                        *epoch > through
                    };
                    session.active_views.retain(
                        held,
                        Ghost(|epoch: u64, view: ActiveReadValue| epoch > through),
                    );
                }
                let ghost first = entry.progressed(released_view_through, None);
                assert(session@ =~= first);
                if let Some(finished) = finished_read_request_through {
                    if finished > session.finished_read_request_through {
                        session.finished_read_request_through = finished;
                    }
                    let through: u64 = session.finished_read_request_through;
                    let held = |epoch: &u64, view: &ActiveReadView| -> (met: bool)
                        ensures
                            met == (view@.read_request_id == 0 || view@.read_request_id > through),
                    {
                        view.read_request_id == 0 || view.read_request_id > through
                    };
                    session.active_views.retain(
                        held,
                        Ghost(
                            |epoch: u64, view: ActiveReadValue|
                                view.read_request_id == 0 || view.read_request_id > through,
                        ),
                    );
                }
                assert(session@ =~= entry.progressed(
                    released_view_through,
                    finished_read_request_through,
                ));
                let supported: bool = session.write_lease_release_supported;
                let ghost next = session@;
                assert(next.wf());
                self.sessions.insert(session_id, session);
                assert(self@.sessions =~= before.sessions.insert(session_id, next));
                Ok(supported)
            },
        }
    }

    /// Lets a session use what it caches for some time, and says for how many milliseconds. A
    /// session has no such right while it has not acknowledged every event or cannot be told of
    /// one.
    pub fn grant_lease(
        &mut self,
        session_id: u64,
        stream_closed: bool,
        watch_connected: bool,
        metadata_lease_until: u64,
        lease_ttl: u64,
        now: u64,
    ) -> (granted: u64)
        requires
            old(self)@.wf(),
            old(self)@.sessions.contains_key(session_id),
        ensures
            final(self)@.wf(),
            granted == lease_millis(
                old(self)@.sessions[session_id],
                stream_closed,
                watch_connected,
                metadata_lease_until,
                lease_ttl,
                now,
            ),
            final(self)@ == (if granted == 0 {
                old(self)@
            } else {
                old(self)@.with_session(
                    session_id,
                    (SessionView {
                        cache_until: Some(
                            crate::staging::later(
                                now,
                                crate::current_cache::millis_to_nanos(granted),
                            ),
                        ),
                        ..old(self)@.sessions[session_id]
                    }),
                )
            }),
    {
        let ghost before = self@;
        match self.sessions.get(&session_id) {
            None => return 0,
            Some(session) => {
                if session.disconnected || !watch_connected || session.last_ack
                    < session.next_event_sequence.saturating_sub(1) || !session.attached
                    || stream_closed {
                    return 0;
                }
            },
        }
        let remaining: u64 = metadata_lease_until.saturating_sub(now);
        let time: u64 = if remaining < lease_ttl {
            remaining
        } else {
            lease_ttl
        };
        let millis: u64 = time / crate::current_cache::NANOS_PER_MILLI;
        if millis == 0 {
            return 0;
        }
        if let Some(session) = self.sessions.remove(&session_id) {
            let leased = Session {
                cache_until: Some(
                    crate::staging::moment_after(
                        now,
                        crate::current_cache::nanos_of_millis(millis),
                    ),
                ),
                ..session
            };
            self.sessions.insert(session_id, leased);
            assert(self@.sessions =~= before.sessions.insert(session_id, leased@));
        }
        millis
    }

    /// Notes that a session may have cached a key. A session with too many keys counts as one
    /// that may have cached any.
    pub fn register_cache_interest(&mut self, session_id: u64, key: &Vec<u8>) -> (registered: Result<
        (),
        WorkerError,
    >)
        requires
            old(self)@.wf(),
        ensures
            final(self)@.wf(),
            match registered {
                Ok(_) => {
                    &&& old(self)@.live(session_id)
                    &&& final(self)@ == old(self)@.with_session(
                        session_id,
                        old(self)@.sessions[session_id].interested(key@),
                    )
                },
                Err(error) => {
                    &&& !old(self)@.live(session_id)
                    &&& error is UnknownSession
                    &&& final(self)@ == old(self)@
                },
            },
    {
        let ghost before = self@;
        match self.live_session(session_id) {
            Ok(_) => {},
            Err(error) => return Err(error),
        }
        match self.sessions.remove(&session_id) {
            None => Err(WorkerError::UnknownSession),
            Some(session) => {
                let mut session = session;
                let ghost entry = session@;
                if session.cache_until.is_some() && !session.cache_interest_all
                    && !session.cached_current_keys.contains(key) {
                    let projected: usize = session.cached_current_key_bytes.saturating_add(
                        key.len(),
                    );
                    if session.cached_current_keys.len() >= CLIENT_CACHE_INTEREST_KEY_LIMIT
                        || projected > CLIENT_CACHE_INTEREST_BYTES_LIMIT {
                        session.cached_current_keys.clear();
                        session.cached_current_key_bytes = 0;
                        session.cache_interest_all = true;
                    } else {
                        session.cached_current_key_bytes = projected;
                        session.cached_current_keys.insert(copy_bytes(key));
                    }
                }
                assert(session@ =~= entry.interested(key@));
                proof {
                    assert(before.sessions[session_id].wf());
                    if !entry.cached_keys.contains(key@) {
                        lemma_key_bytes_insert(entry.cached_keys, key@);
                    }
                }
                let ghost next = session@;
                self.sessions.insert(session_id, session);
                assert(self@.sessions =~= before.sessions.insert(session_id, next));
                Ok(())
            },
        }
    }

    /// Takes the barriers that a change finished out, and returns who waits for them.
    fn take_finished(
        &mut self,
        Ghost(before): Ghost<SessionsView>,
        Ghost(change): Ghost<spec_fn(u64, BarrierView) -> BarrierView>,
    ) -> (waiters: Vec<u64>)
        requires
            old(self)@ == (SessionsView { barriers: each(before.barriers, change), ..before }),
            forall|id: u64, barrier: BarrierView|
                #![trigger change(id, barrier)]
                change(id, barrier).waiter == barrier.waiter,
        ensures
            final(self)@ == before.with_barriers(change),
            before.finishes(change, waiters@),
    {
        let ghost changed = self@;
        let is_done = |id: &u64, barrier: &InvalidationBarrier| -> (met: bool)
            ensures
                met == barrier@.done(),
        {
            barrier.waiting.is_empty()
        };
        let done = self.barriers.keys_where(
            is_done,
            Ghost(|id: u64, barrier: BarrierView| barrier.done()),
        );
        let ghost ids = done@;
        let ghost set = before.done_after(change);
        proof {
            assert(set =~= Set::new(
                |id: u64|
                    changed.barriers.contains_key(id) && (|id: u64, barrier: BarrierView|
                        barrier.done())(id, changed.barriers[id]),
            ));
        }
        let mut waiters: Vec<u64> = Vec::new();
        let mut i: usize = 0;
        assert(ids.take(0) =~= Seq::empty());
        assert(changed.barriers.remove_keys(ids.take(0).to_set()) =~= changed.barriers);
        while i < done.len()
            invariant
                i <= done@.len(),
                ids == done@,
                keys_are(ids, set),
                set == before.done_after(change),
                changed == (SessionsView { barriers: each(before.barriers, change), ..before }),
                self@ == (SessionsView { barriers: self@.barriers, ..before }),
                self@.barriers =~= changed.barriers.remove_keys(ids.take(i as int).to_set()),
                waiters@ == waiters_of(before.barriers, ids.take(i as int)),
                forall|id: u64, barrier: BarrierView|
                    #![trigger change(id, barrier)]
                    change(id, barrier).waiter == barrier.waiter,
            decreases done.len() - i,
        {
            let id: u64 = done[i];
            proof {
                assert(ids.take(i + 1).drop_last() =~= ids.take(i as int));
                assert(set.contains(ids[i as int]));
                assert(!ids.take(i as int).to_set().contains(id)) by {
                    if ids.take(i as int).contains(id) {
                        let j = choose|j: int|
                            0 <= j < ids.take(i as int).len() && ids.take(i as int)[j] == id;
                        assert(ids[j] != ids[i as int]);
                    }
                }
                assert(change(id, before.barriers[id]).waiter == before.barriers[id].waiter);
                assert(ids.take(i + 1).to_set() =~= ids.take(i as int).to_set().insert(id)) by {
                    lemma_take_set(ids, i as int);
                }
            }
            if let Some(barrier) = self.barriers.remove(&id) {
                if let Some(waiter) = barrier.waiter {
                    waiters.push(waiter);
                }
            }
            i = i + 1;
        }
        proof {
            assert(ids.take(i as int) =~= ids);
            assert(ids.to_set() =~= set) by {
                assert forall|id: u64| ids.to_set().contains(id) == set.contains(id) by {
                    if set.contains(id) {
                        let j = choose|j: int| #![trigger ids[j]] 0 <= j < ids.len() && ids[j]@ == id;
                        assert(ids[j] == id);
                    }
                }
            }
        }
        waiters
    }

    /// Notes that a session has handled every event up to one, and returns who waited for that.
    pub fn acknowledge(&mut self, session_id: u64, sequence: u64) -> (acknowledged: Result<
        Vec<u64>,
        WorkerError,
    >)
        requires
            old(self)@.wf(),
        ensures
            final(self)@.wf(),
            match acknowledged {
                Ok(waiters) => {
                    &&& old(self)@.sessions.contains_key(session_id)
                    &&& final(self)@ == old(self)@.acknowledged(session_id, sequence)
                    &&& old(self)@.finishes(
                        SessionsView::ack_change(session_id, sequence),
                        waiters@,
                    )
                },
                Err(error) => {
                    &&& !old(self)@.sessions.contains_key(session_id)
                    &&& error is UnknownSession
                    &&& final(self)@ == old(self)@
                },
            },
    {
        let ghost before = self@;
        match self.sessions.remove(&session_id) {
            None => {
                assert(self@ =~= before);
                return Err(WorkerError::UnknownSession);
            },
            Some(session) => {
                let last_ack: u64 = if sequence > session.last_ack {
                    sequence
                } else {
                    session.last_ack
                };
                let acked = Session { last_ack, ..session };
                self.sessions.insert(session_id, acked);
            },
        }
        let ghost middle = self@;
        let acknowledge_one = |id: &u64, barrier: InvalidationBarrier| -> (next:
            InvalidationBarrier)
            ensures
                next@ == barrier@.acknowledged(session_id, sequence),
        {
            let mut waiting = barrier.waiting;
            let due: bool = match waiting.get(&session_id) {
                Some(required) => sequence >= *required,
                None => false,
            };
            if due {
                let _ = waiting.remove(&session_id);
            }
            InvalidationBarrier { waiting, waiter: barrier.waiter }
        };
        let ghost change = SessionsView::ack_change(session_id, sequence);
        self.barriers.rewrite(acknowledge_one, Ghost(change));
        assert(self@ =~= SessionsView { barriers: each(middle.barriers, change), ..middle });
        let waiters: Vec<u64> = self.take_finished(Ghost(middle), Ghost(change));
        proof {
            assert(self@ =~= before.acknowledged(session_id, sequence));
            assert(middle.done_after(change) =~= before.done_after(change));
            let ids = choose|ids: Seq<u64>| #[trigger]
                keys_are(ids, middle.done_after(change)) && waiters@ == waiters_of(
                    middle.barriers,
                    ids,
                );
            assert(keys_are(ids, before.done_after(change)));
        }
        Ok(waiters)
    }

    /// Tells every session that may have cached a key that it is out of date. Returns the
    /// barrier that waits for them, if there is any, and the events to send.
    pub fn send_invalidation(&mut self, key: &Vec<u8>, minimum_version: u64) -> (sent: (
        Option<u64>,
        Vec<Delivery>,
    ))
        requires
            old(self)@.wf(),
            old(self)@.next_barrier < u64::MAX,
            forall|id: u64| #[trigger]
                old(self)@.sessions.contains_key(id) ==> old(
                    self,
                )@.sessions[id].next_event_sequence < u64::MAX,
        ensures
            final(self)@.wf(),
            final(self)@ == old(self)@.invalidated(key@),
            sent.0 == (if old(self)@.holders(key@) == Set::<u64>::empty() {
                None
            } else {
                Some(old(self)@.next_barrier)
            }),
            exists|ids: Seq<u64>| #[trigger]
                keys_are(ids, old(self)@.holders(key@)) && views(sent.1@) == events_for(
                    old(self)@.sessions,
                    ids,
                    key@,
                    minimum_version,
                ),
    {
        let ghost before = self@;
        let may_hold = |id: &u64, session: &Session| -> (met: bool)
            ensures
                met == session@.may_have_cached(key@),
        {
            session.cache_until.is_some() && (session.cache_interest_all
                || session.cached_current_keys.contains(key))
        };
        let holders = self.sessions.keys_where(
            may_hold,
            Ghost(|id: u64, session: SessionView| session.may_have_cached(key@)),
        );
        let ghost ids = holders@;
        let ghost set = before.holders(key@);
        proof {
            assert(set =~= Set::new(
                |id: u64|
                    before.sessions.contains_key(id) && (|id: u64, session: SessionView|
                        session.may_have_cached(key@))(id, before.sessions[id]),
            ));
        }
        let mut waiting: Table<u64, u64> = Table::new();
        let mut events: Vec<Delivery> = Vec::new();
        let mut i: usize = 0;
        assert(ids.take(0) =~= Seq::empty());
        assert(views(events@) =~= Seq::empty());
        while i < holders.len()
            invariant
                i <= holders@.len(),
                ids == holders@,
                keys_are(ids, set),
                set == before.holders(key@),
                self@ == before,
                waiting@ =~= Map::new(
                    |id: u64| ids.take(i as int).contains(id),
                    |id: u64| before.sessions[id].next_event_sequence,
                ),
                views(events@) =~= events_for(
                    before.sessions,
                    ids.take(i as int),
                    key@,
                    minimum_version,
                ),
            decreases holders.len() - i,
        {
            let id: u64 = holders[i];
            let ghost sent = events@;
            proof {
                assert(ids.take(i + 1).drop_last() =~= ids.take(i as int));
                assert(set.contains(ids[i as int]));
                lemma_take_set(ids, i as int);
            }
            if let Some(session) = self.sessions.get(&id) {
                waiting.insert(id, session.next_event_sequence);
                proof {
                    assert forall|other: u64| ids.take(i + 1).contains(other) == (ids.take(
                        i as int,
                    ).contains(other) || other == id) by {
                        assert(ids.take(i + 1).to_set().contains(other) == (ids.take(
                            i as int,
                        ).to_set().insert(id)).contains(other));
                    }
                }
                if session.attached {
                    events.push(
                        Delivery {
                            session_id: id,
                            event: InvalidateCurrent {
                                session_epoch: session.epoch,
                                event_sequence: session.next_event_sequence,
                                key: copy_bytes(key),
                                minimum_version,
                            },
                        },
                    );
                    proof {
                        crate::bytes::lemma_views_push(sent, events@.last());
                    }
                }
            }
            i = i + 1;
        }
        assert(ids.take(i as int) =~= ids);
        if holders.len() == 0 {
            proof {
                assert(set =~= Set::<u64>::empty()) by {
                    assert forall|id: u64| !set.contains(id) by {
                        if set.contains(id) {
                            let j = choose|j: int|
                                #![trigger ids[j]]
                                0 <= j < ids.len() && ids[j]@ == id;
                            assert(ids[j] == id);
                        }
                    }
                }
                assert(keys_are(ids, before.holders(key@)));
            }
            return (None, events);
        }
        proof {
            assert(set.contains(ids[0]@));
            assert(waiting@ =~= Map::new(
                |id: u64| set.contains(id),
                |id: u64| before.sessions[id].next_event_sequence,
            )) by {
                assert forall|id: u64| set.contains(id) == ids.contains(id) by {
                    if set.contains(id) {
                        let j = choose|j: int| #![trigger ids[j]] 0 <= j < ids.len() && ids[j]@ == id;
                        assert(ids[j] == id);
                    }
                }
            }
        }
        let note = |id: &u64, session: Session| -> (next: Session)
            ensures
                next@ == (if session@.may_have_cached(key@) {
                    session@.notified()
                } else {
                    session@
                }),
        {
            if session.cache_until.is_some() && (session.cache_interest_all
                || session.cached_current_keys.contains(key)) {
                let next_event_sequence: u64 = session.next_event_sequence.saturating_add(1);
                Session { next_event_sequence, ..session }
            } else {
                session
            }
        };
        self.sessions.rewrite(
            note,
            Ghost(
                |id: u64, session: SessionView|
                    if session.may_have_cached(key@) {
                        session.notified()
                    } else {
                        session
                    },
            ),
        );
        let barrier_id: u64 = self.next_barrier;
        self.next_barrier = barrier_id + 1;
        self.barriers.insert(barrier_id, InvalidationBarrier { waiting, waiter: None });
        proof {
            assert(self@ =~= before.invalidated(key@));
            let next = self@;
            assert(next.wf()) by {
                assert forall|id: u64| #[trigger] next.barriers.contains_key(id) implies id
                    < next.next_barrier && !next.barriers[id].done() by {
                    if id == barrier_id {
                        assert(next.barriers[id].waiting.contains_key(ids[0]));
                    }
                }
            }
            assert(keys_are(ids, before.holders(key@)));
        }
        (Some(barrier_id), events)
    }
}

proof fn lemma_take_set(ids: Seq<u64>, n: int)
    requires
        0 <= n < ids.len(),
    ensures
        ids.take(n + 1).to_set() =~= ids.take(n).to_set().insert(ids[n]),
{
    let longer = ids.take(n + 1);
    let shorter = ids.take(n);
    assert forall|id: u64| longer.to_set().contains(id) == shorter.to_set().insert(
        ids[n],
    ).contains(id) by {
        if shorter.contains(id) {
            let j = choose|j: int| 0 <= j < shorter.len() && shorter[j] == id;
            assert(longer[j] == id);
        }
        if id == ids[n] {
            assert(longer[n] == id);
        }
        if longer.contains(id) && id != ids[n] {
            let j = choose|j: int| 0 <= j < longer.len() && longer[j] == id;
            assert(shorter[j] == id);
        }
    }
}

/// Why a session cannot say what it gave back.
pub open spec fn progress_fault(
    state: SessionsView,
    session_id: u64,
    released_view_through: Option<u64>,
    cleanup_only: bool,
) -> Option<WorkerError> {
    if !state.sessions.contains_key(session_id) {
        Some(WorkerError::UnknownSession)
    } else if state.sessions[session_id].disconnected && !cleanup_only {
        Some(WorkerError::UnknownSession)
    } else if released_view_through is Some && released_view_through->0
        >= state.sessions[session_id].next_view_epoch {
        Some(WorkerError::InvalidArgument("released view watermark exceeds granted views"))
    } else {
        None
    }
}

/// For how many milliseconds a session may use what it caches.
pub open spec fn lease_millis(
    session: SessionView,
    stream_closed: bool,
    watch_connected: bool,
    metadata_lease_until: u64,
    lease_ttl: u64,
    now: u64,
) -> u64 {
    if session.disconnected || !watch_connected || session.last_ack + 1
        < session.next_event_sequence || !session.attached || stream_closed || metadata_lease_until
        <= now {
        0
    } else {
        let remaining = (metadata_lease_until - now) as u64;
        (if remaining < lease_ttl {
            remaining
        } else {
            lease_ttl
        }) / crate::current_cache::NANOS_PER_MILLI
    }
}

/// A client may use what it has cached only while the node itself may: its lease ends with the
/// node's lease at the latest, and there is none without the stream of changes, or while events
/// that were sent are not acknowledged.
pub proof fn a_client_lease_ends_with_the_lease_of_the_node(
    session: SessionView,
    stream_closed: bool,
    watch_connected: bool,
    metadata_lease_until: u64,
    lease_ttl: u64,
    now: u64,
)
    ensures
        ({
            let millis = lease_millis(
                session,
                stream_closed,
                watch_connected,
                metadata_lease_until,
                lease_ttl,
                now,
            );
            &&& millis > 0 ==> now + millis * 1_000_000
                <= metadata_lease_until
            &&& millis * 1_000_000 <= lease_ttl
            &&& millis > 0 ==> watch_connected && session.attached && !stream_closed
                && session.last_ack + 1 >= session.next_event_sequence
        }),
{
}

/// A client that has its stream, has acknowledged every event that it was sent, and whose node is
/// kept informed gets a lease of as many whole milliseconds as the node's own lease and the limit of
/// client leases allow, and no client gets a longer one.
pub proof fn a_client_that_kept_up_gets_the_longest_lease(
    session: SessionView,
    stream_closed: bool,
    watch_connected: bool,
    metadata_lease_until: u64,
    lease_ttl: u64,
    now: u64,
)
    ensures
        ({
            let millis = lease_millis(
                session,
                stream_closed,
                watch_connected,
                metadata_lease_until,
                lease_ttl,
                now,
            );
            let entitled = !session.disconnected && session.attached && !stream_closed
                && watch_connected && session.last_ack + 1 >= session.next_event_sequence && now
                < metadata_lease_until;
            &&& !entitled ==> millis == 0
            &&& now + millis * 1_000_000 <= metadata_lease_until || millis == 0
            &&& millis * 1_000_000 <= lease_ttl
            &&& entitled ==> now + (millis + 1) * 1_000_000 > metadata_lease_until || (millis + 1)
                * 1_000_000 > lease_ttl
        }),
{
}

/// Whoever waits for a barrier is told when the last session that held it acknowledges its event or
/// loses its lease, and nobody else is told.
pub proof fn whoever_waits_for_a_barrier_is_told_when_it_is_gone(
    state: SessionsView,
    session_id: u64,
    sequence: u64,
    now: u64,
    retained: Set<u64>,
    waiters: Seq<u64>,
    barrier_id: u64,
    waiter: u64,
)
    requires
        state.wf(),
        state.sessions.contains_key(session_id),
    ensures
        state.finishes(SessionsView::ack_change(session_id, sequence), waiters) ==> {
            let next = state.acknowledged(session_id, sequence);
            &&& state.barriers.contains_key(barrier_id) && !next.barriers.contains_key(barrier_id)
                && state.barriers[barrier_id].waiter is Some ==> waiters.contains(
                state.barriers[barrier_id].waiter->0,
            )
            &&& waiters.contains(waiter) ==> exists|ended: u64| #[trigger]
                state.barriers.contains_key(ended) && !next.barriers.contains_key(ended)
                    && state.barriers[ended].waiter == Some(waiter)
        },
        state.finishes(state.expiry_change(now), waiters) ==> {
            let next = state.lapsed(now, retained);
            &&& state.barriers.contains_key(barrier_id) && !next.barriers.contains_key(barrier_id)
                && state.barriers[barrier_id].waiter is Some ==> waiters.contains(
                state.barriers[barrier_id].waiter->0,
            )
            &&& waiters.contains(waiter) ==> exists|ended: u64| #[trigger]
                state.barriers.contains_key(ended) && !next.barriers.contains_key(ended)
                    && state.barriers[ended].waiter == Some(waiter)
        },
{
    if state.finishes(SessionsView::ack_change(session_id, sequence), waiters) {
        lemma_finishes(
            state,
            SessionsView::ack_change(session_id, sequence),
            waiters,
            barrier_id,
            waiter,
        );
    }
    if state.finishes(state.expiry_change(now), waiters) {
        lemma_finishes(state, state.expiry_change(now), waiters, barrier_id, waiter);
    }
}

proof fn lemma_finishes(
    state: SessionsView,
    change: spec_fn(u64, BarrierView) -> BarrierView,
    waiters: Seq<u64>,
    barrier_id: u64,
    waiter: u64,
)
    requires
        state.finishes(change, waiters),
    ensures
        state.done_after(change).contains(barrier_id) && state.barriers[barrier_id].waiter is Some
            ==> waiters.contains(state.barriers[barrier_id].waiter->0),
        waiters.contains(waiter) ==> exists|ended: u64| #[trigger]
            state.barriers.contains_key(ended) && state.done_after(change).contains(ended)
                && state.barriers[ended].waiter == Some(waiter),
{
    let ids = choose|ids: Seq<u64>| #[trigger]
        keys_are(ids, state.done_after(change)) && waiters == waiters_of(state.barriers, ids);
    if state.done_after(change).contains(barrier_id) && state.barriers[barrier_id].waiter is Some {
        let at = choose|at: int| #![trigger ids[at]] 0 <= at < ids.len() && ids[at]@ == barrier_id;
        lemma_waiter_among(state.barriers, ids, at);
    }
    if waiters.contains(waiter) {
        let at = lemma_waiter_from(state.barriers, ids, waiter);
        assert(state.done_after(change).contains(ids[at]@));
        assert(state.barriers.contains_key(ids[at]));
    }
}

proof fn lemma_waiter_among(barriers: Map<u64, BarrierView>, ids: Seq<u64>, at: int)
    requires
        0 <= at < ids.len(),
        barriers[ids[at]].waiter is Some,
    ensures
        waiters_of(barriers, ids).contains(barriers[ids[at]].waiter->0),
    decreases ids.len(),
{
    let all = waiters_of(barriers, ids);
    let earlier = waiters_of(barriers, ids.drop_last());
    let waiter = barriers[ids[at]].waiter->0;
    if at == ids.len() - 1 {
        assert(all[earlier.len() as int] == waiter);
    } else {
        lemma_waiter_among(barriers, ids.drop_last(), at);
        let i = choose|i: int| 0 <= i < earlier.len() && earlier[i] == waiter;
        assert(all[i] == waiter);
    }
}

proof fn lemma_waiter_from(barriers: Map<u64, BarrierView>, ids: Seq<u64>, waiter: u64) -> (at: int)
    requires
        waiters_of(barriers, ids).contains(waiter),
    ensures
        0 <= at < ids.len(),
        barriers[ids[at]].waiter == Some(waiter),
    decreases ids.len(),
{
    let all = waiters_of(barriers, ids);
    let earlier = waiters_of(barriers, ids.drop_last());
    let i = choose|i: int| 0 <= i < all.len() && all[i] == waiter;
    if i < earlier.len() {
        assert(earlier[i] == waiter);
        lemma_waiter_from(barriers, ids.drop_last(), waiter)
    } else {
        ids.len() - 1
    }
}

/// Every session in a list that has its stream gets an event of its own for the key and the version,
/// with its own epoch and next number, and nobody else gets any.
pub proof fn each_session_with_a_stream_gets_its_event(
    sessions: Map<u64, SessionView>,
    ids: Seq<u64>,
    key: Seq<u8>,
    minimum_version: u64,
    delivery: (u64, EventView),
)
    ensures
        events_for(sessions, ids, key, minimum_version).contains(delivery) <==> ids.contains(
            delivery.0,
        ) && sessions[delivery.0].attached && delivery.1.session_epoch
            == sessions[delivery.0].epoch && delivery.1.event_sequence
            == sessions[delivery.0].next_event_sequence && delivery.1.key == key
            && delivery.1.minimum_version == minimum_version,
    decreases ids.len(),
{
    if ids.len() > 0 {
        let rest = ids.drop_last();
        let all = events_for(sessions, ids, key, minimum_version);
        let earlier = events_for(sessions, rest, key, minimum_version);
        each_session_with_a_stream_gets_its_event(
            sessions,
            rest,
            key,
            minimum_version,
            delivery,
        );
        assert(ids =~= rest.push(ids.last()));
        assert(ids.contains(delivery.0) <==> rest.contains(delivery.0) || ids.last()
            == delivery.0) by {
            if rest.contains(delivery.0) {
                let i = choose|i: int| 0 <= i < rest.len() && rest[i] == delivery.0;
                assert(ids[i] == delivery.0);
            }
            if ids.last() == delivery.0 {
                assert(ids[ids.len() - 1] == delivery.0);
            }
        }
        let session = sessions[ids.last()];
        if session.attached {
            let last = (
                ids.last(),
                EventView {
                    session_epoch: session.epoch,
                    event_sequence: session.next_event_sequence,
                    key,
                    minimum_version,
                },
            );
            assert(all == earlier.push(last));
            assert(all.contains(delivery) <==> earlier.contains(delivery) || last == delivery) by {
                if earlier.contains(delivery) {
                    let i = choose|i: int| 0 <= i < earlier.len() && earlier[i] == delivery;
                    assert(all[i] == delivery);
                }
                assert(all[earlier.len() as int] == last);
            }
        }
    }
}

/// What came of waiting for a barrier.
#[derive(Clone, Copy, Debug, PartialEq, Eq, Structural)]
pub enum BarrierWait {
    /// The barrier is gone: the wait is over.
    Over,
    /// Somebody waits already.
    Taken,
    /// The wait goes on.
    Waiting,
}

impl Sessions {
    /// Takes the leases that are over away, and returns who waited for that. A session that is
    /// cut off goes with its lease, unless it still reads shared memory or is retained.
    pub fn expire_cache_leases(&mut self, now: u64, retained: &KeySet<u64>) -> (waiters: Vec<u64>)
        requires
            old(self)@.wf(),
        ensures
            final(self)@.wf(),
            final(self)@ == old(self)@.lapsed(now, retained@),
            old(self)@.finishes(old(self)@.expiry_change(now), waiters@),
    {
        let ghost before = self@;
        let over = |id: &u64, session: &Session| -> (met: bool)
            ensures
                met == session@.lease_over(now),
        {
            match session.cache_until {
                None => true,
                Some(until) => until <= now,
            }
        };
        let expired = self.sessions.keys_where(
            over,
            Ghost(|id: u64, session: SessionView| session.lease_over(now)),
        );
        let ghost gone = before.expired(now);
        proof {
            assert(gone =~= Set::new(
                |id: u64|
                    before.sessions.contains_key(id) && (|id: u64, session: SessionView|
                        session.lease_over(now))(id, before.sessions[id]),
            ));
            assert(expired@.to_set() =~= gone) by {
                assert forall|id: u64| expired@.to_set().contains(id) == gone.contains(id) by {
                    if gone.contains(id) {
                        let j = choose|j: int|
                            #![trigger expired@[j]]
                            0 <= j < expired@.len() && expired@[j]@ == id;
                        assert(expired@[j] == id);
                    }
                }
            }
        }
        let release = |id: &u64, barrier: InvalidationBarrier| -> (next: InvalidationBarrier)
            ensures
                next@ == barrier@.released_by(expired@.to_set()),
        {
            release_from(barrier, &expired)
        };
        let ghost change = before.expiry_change(now);
        self.barriers.rewrite(release, Ghost(change));
        assert(self@ =~= SessionsView { barriers: each(before.barriers, change), ..before });
        let waiters: Vec<u64> = self.take_finished(Ghost(before), Ghost(change));
        let is_forgotten = |id: &u64, session: &Session| -> (met: bool)
            ensures
                met == (session@.lease_over(now) && session@.disconnected && session@.active_views
                    == Map::<u64, ActiveReadValue>::empty() && !retained@.contains(id@)),
        {
            let ended: bool = match session.cache_until {
                None => true,
                Some(until) => until <= now,
            };
            ended && session.disconnected && session.active_views.is_empty() && !retained.contains(
                id,
            )
        };
        let ghost test = |id: u64, session: SessionView|
            session.lease_over(now) && session.disconnected && session.active_views == Map::<
                u64,
                ActiveReadValue,
            >::empty() && !retained@.contains(id);
        let forgotten = self.sessions.keys_where(is_forgotten, Ghost(test));
        let ghost dropped = Set::new(|id: u64| before.forgotten(id, now, retained@));
        assert(dropped =~= Set::new(
            |id: u64| before.sessions.contains_key(id) && test(id, before.sessions[id]),
        ));
        let lapse = |id: &u64, session: Session| -> (next: Session)
            ensures
                next@ == (if session@.lease_over(now) {
                    session@.without_lease()
                } else {
                    session@
                }),
        {
            let ended: bool = match session.cache_until {
                None => true,
                Some(until) => until <= now,
            };
            if ended {
                Session {
                    cache_until: None,
                    cached_current_keys: KeySet::new(),
                    cached_current_key_bytes: 0,
                    cache_interest_all: false,
                    ..session
                }
            } else {
                session
            }
        };
        let ghost lapsing = |id: u64, session: SessionView|
            if session.lease_over(now) {
                session.without_lease()
            } else {
                session
            };
        self.sessions.rewrite(lapse, Ghost(lapsing));
        let ghost ids = forgotten@;
        let ghost rest = self@.sessions;
        let ghost barriers_left = self@;
        let mut i: usize = 0;
        assert(ids.take(0).to_set() =~= Set::empty());
        while i < forgotten.len()
            invariant
                i <= forgotten@.len(),
                ids == forgotten@,
                self@ == (SessionsView { sessions: self@.sessions, ..barriers_left }),
                self@.sessions =~= rest.remove_keys(ids.take(i as int).to_set()),
            decreases forgotten.len() - i,
        {
            let _ = self.sessions.remove(&forgotten[i]);
            proof {
                lemma_take_set(ids, i as int);
            }
            i = i + 1;
        }
        proof {
            assert(ids.take(i as int) =~= ids);
            assert(ids.to_set() =~= dropped) by {
                assert forall|id: u64| ids.to_set().contains(id) == dropped.contains(id) by {
                    if dropped.contains(id) {
                        let j = choose|j: int| #![trigger ids[j]] 0 <= j < ids.len() && ids[j]@ == id;
                        assert(ids[j] == id);
                    }
                }
            }
            assert(self@ =~= before.lapsed(now, retained@));
            lemma_lapsed_wf(before, now, retained@);
        }
        waiters
    }

    /// Cuts sessions off whose streams took no more events.
    pub fn cut_off(&mut self, failed: &Vec<u64>)
        requires
            old(self)@.wf(),
        ensures
            final(self)@.wf(),
            final(self)@ == old(self)@.cut_off(failed@.to_set()),
    {
        let ghost before = self@;
        let cut = |id: &u64, session: Session| -> (next: Session)
            ensures
                next@ == (if failed@.to_set().contains(id@) {
                    session@.cut_off()
                } else {
                    session@
                }),
        {
            if holds(failed, *id) {
                Session { disconnected: true, attached: false, ..session }
            } else {
                session
            }
        };
        self.sessions.rewrite(
            cut,
            Ghost(
                |id: u64, session: SessionView|
                    if failed@.to_set().contains(id) {
                        session.cut_off()
                    } else {
                        session
                    },
            ),
        );
        assert(self@ =~= before.cut_off(failed@.to_set()));
    }

    /// Hands a session a view of shared memory.
    pub fn begin_view(&mut self, session_id: u64, read_request_id: u64, allocation_ids: Vec<u64>)
        requires
            old(self)@.wf(),
            old(self)@.sessions.contains_key(session_id),
            old(self)@.sessions[session_id].next_view_epoch < u64::MAX,
        ensures
            final(self)@.wf(),
            final(self)@ == old(self)@.with_session(
                session_id,
                old(self)@.sessions[session_id].viewing(read_request_id, allocation_ids@),
            ),
    {
        let ghost before = self@;
        if let Some(session) = self.sessions.remove(&session_id) {
            let mut session = session;
            let ghost entry = session@;
            let epoch: u64 = session.next_view_epoch;
            session.active_views.insert(epoch, ActiveReadView { read_request_id, allocation_ids });
            session.next_view_epoch = epoch + 1;
            assert(session@ =~= entry.viewing(read_request_id, allocation_ids@));
            let ghost next = session@;
            self.sessions.insert(session_id, session);
            assert(self@.sessions =~= before.sessions.insert(session_id, next));
        }
    }

    /// Waits for a barrier. A barrier has one waiter at most.
    pub fn attach_barrier_waiter(&mut self, barrier_id: u64, waiter: u64) -> (wait: BarrierWait)
        requires
            old(self)@.wf(),
        ensures
            final(self)@.wf(),
            wait == (if !old(self)@.barriers.contains_key(barrier_id) {
                BarrierWait::Over
            } else if old(self)@.barriers[barrier_id].waiter is Some {
                BarrierWait::Taken
            } else {
                BarrierWait::Waiting
            }),
            final(self)@ == (if wait == BarrierWait::Waiting {
                SessionsView {
                    barriers: old(self)@.barriers.insert(
                        barrier_id,
                        (BarrierView { waiter: Some(waiter), ..old(self)@.barriers[barrier_id] }),
                    ),
                    ..old(self)@
                }
            } else {
                old(self)@
            }),
    {
        let ghost before = self@;
        match self.barriers.get(&barrier_id) {
            None => return BarrierWait::Over,
            Some(barrier) => {
                if barrier.waiter.is_some() {
                    return BarrierWait::Taken;
                }
            },
        }
        if let Some(barrier) = self.barriers.remove(&barrier_id) {
            let held = InvalidationBarrier { waiting: barrier.waiting, waiter: Some(waiter) };
            self.barriers.insert(barrier_id, held);
            assert(self@.barriers =~= before.barriers.insert(barrier_id, held@));
        }
        BarrierWait::Waiting
    }

    /// When the next lease is over.
    pub fn next_cache_lease_expiry(&self) -> (next: Option<u64>)
        ensures
            match next {
                Some(moment) => {
                    &&& exists|id: u64|
                        #![trigger self@.sessions.contains_key(id)]
                        self@.sessions.contains_key(id) && self@.sessions[id].cache_until == Some(
                            moment,
                        )
                    &&& forall|id: u64|
                        #![trigger self@.sessions.contains_key(id)]
                        self@.sessions.contains_key(id) && self@.sessions[id].cache_until is Some
                            ==> moment <= self@.sessions[id].cache_until->0
                },
                None => forall|id: u64|
                    #![trigger self@.sessions.contains_key(id)]
                    self@.sessions.contains_key(id) ==> self@.sessions[id].cache_until is None,
            },
    {
        let has_lease = |id: &u64, session: &Session| -> (met: bool)
            ensures
                met == (session@.cache_until is Some),
        {
            session.cache_until.is_some()
        };
        let leased = self.sessions.keys_where(
            has_lease,
            Ghost(|id: u64, session: SessionView| session.cache_until is Some),
        );
        let ghost set = Set::new(
            |id: u64|
                self@.sessions.contains_key(id) && (|id: u64, session: SessionView|
                    session.cache_until is Some)(id, self@.sessions[id]),
        );
        let mut next: Option<u64> = None;
        let mut i: usize = 0;
        while i < leased.len()
            invariant
                i <= leased@.len(),
                keys_are(leased@, set),
                set == Set::new(
                    |id: u64|
                        self@.sessions.contains_key(id) && (|id: u64, session: SessionView|
                            session.cache_until is Some)(id, self@.sessions[id]),
                ),
                next is None <==> i == 0,
                next matches Some(moment) ==> exists|id: u64|
                    #![trigger self@.sessions.contains_key(id)]
                    self@.sessions.contains_key(id) && self@.sessions[id].cache_until == Some(
                        moment,
                    ),
                next matches Some(moment) ==> forall|j: int|
                    #![trigger leased@[j]]
                    0 <= j < i ==> moment <= self@.sessions[leased@[j]].cache_until->0,
            decreases leased.len() - i,
        {
            assert(set.contains(leased@[i as int]@));
            if let Some(session) = self.sessions.get(&leased[i]) {
                if let Some(until) = session.cache_until {
                    assert(self@.sessions.contains_key(leased@[i as int]));
                    next = match next {
                        None => Some(until),
                        Some(moment) => if until < moment {
                            Some(until)
                        } else {
                            Some(moment)
                        },
                    };
                }
            }
            i = i + 1;
        }
        proof {
            assert forall|id: u64|
                #![trigger self@.sessions.contains_key(id)]
                self@.sessions.contains_key(id)
                    && self@.sessions[id].cache_until is Some implies next is Some && next->0
                <= self@.sessions[id].cache_until->0 by {
                assert(set.contains(id));
                let j = choose|j: int|
                    #![trigger leased@[j]]
                    0 <= j < leased@.len() && leased@[j]@ == id;
                assert(leased@[j] == id);
            }
        }
        next
    }
}

/// Whether a list holds an id.
fn holds(ids: &Vec<u64>, id: u64) -> (found: bool)
    ensures
        found == ids@.to_set().contains(id),
{
    let mut i: usize = 0;
    while i < ids.len()
        invariant
            i <= ids@.len(),
            forall|j: int| 0 <= j < i ==> ids@[j] != id,
        decreases ids.len() - i,
    {
        if ids[i] == id {
            assert(ids@.contains(id));
            return true;
        }
        i = i + 1;
    }
    assert(!ids@.contains(id));
    false
}

proof fn lemma_lapsed_wf(state: SessionsView, now: u64, retained: Set<u64>)
    requires
        state.wf(),
    ensures
        state.lapsed(now, retained).wf(),
{
    let next = state.lapsed(now, retained);
    let change = state.expiry_change(now);
    assert forall|id: u64, session_id: u64|
        #![trigger next.barriers[id].waiting.contains_key(session_id)]
        next.barriers.contains_key(id) && next.barriers[id].waiting.contains_key(
            session_id,
        ) implies next.sessions.contains_key(session_id)
        && next.sessions[session_id].cache_until is Some && next.barriers[id].waiting[session_id]
        < next.sessions[session_id].next_event_sequence by {
        assert(next.barriers[id] == state.barriers[id].released_by(state.expired(now)));
        assert(state.barriers[id].waiting.contains_key(session_id));
        assert(!state.expired(now).contains(session_id));
    }
    assert forall|id: u64| #[trigger] next.barriers.contains_key(id) implies id < next.next_barrier
        && !next.barriers[id].done() by {
        assert(!state.done_after(change).contains(id));
    }
    assert forall|id: u64| #[trigger] next.sessions.contains_key(id) implies 0 < id
        < next.next_session && next.sessions[id].wf() by {
        assert(state.sessions[id].wf());
    }
}

} // verus!
