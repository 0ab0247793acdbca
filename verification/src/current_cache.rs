//! The current versions that the node may answer for without asking the metadata service. Every
//! invalidation starts a new generation, and only an answer that was asked for in the present
//! generation can be cached, so that a late answer never brings an old version back.
use crate::bytes::same_bytes;
#[allow(unused_imports)]
use crate::bytes::views;
use crate::protocol::{copy_replica_sets, BlockReplicaSet, ResolveObjectResponse, VersionLayout};
#[allow(unused_imports)]
use crate::protocol::{LayoutView, ReplicaSetView, ResolvedView};
use crate::staging::moment_after;
#[allow(unused_imports)]
use crate::staging::later;
#[allow(unused_imports)]
use crate::table::{
    keys_are, lemma_total_empty, lemma_total_insert, lemma_total_remove, total,
};
use crate::table::Table;
use crate::version_layout::ExtentRecord;
#[allow(unused_imports)]
use crate::version_layout::ExtentView;
use vstd::prelude::*;

verus! {

/// The nanoseconds of a millisecond.
pub const NANOS_PER_MILLI: u64 = 1_000_000;

/// The nanoseconds of some milliseconds, as far as time goes.
pub open spec fn millis_to_nanos(millis: u64) -> u64 {
    if millis * NANOS_PER_MILLI > u64::MAX {
        u64::MAX
    } else {
        (millis * NANOS_PER_MILLI) as u64
    }
}

/// The nanoseconds of some milliseconds, as far as time goes.
pub fn nanos_of_millis(millis: u64) -> (nanos: u64)
    ensures
        nanos == millis_to_nanos(millis),
{
    match millis.checked_mul(NANOS_PER_MILLI) {
        Some(nanos) => nanos,
        None => u64::MAX,
    }
}

/// A cached version.
pub struct CacheEntry {
    pub layout: VersionLayout,
    pub block_replicas: Vec<BlockReplicaSet>,
    pub expires_at: u64,
    pub node_epoch: u64,
    pub charge: u64,
}

/// A cached version, as a value.
#[verifier::ext_equal]
pub struct CacheEntryView {
    pub layout: LayoutView,
    pub block_replicas: Seq<ReplicaSetView>,
    pub expires_at: u64,
    pub node_epoch: u64,
    pub charge: u64,
}

impl View for CacheEntry {
    type V = CacheEntryView;

    open spec fn view(&self) -> CacheEntryView {
        CacheEntryView {
            layout: self.layout@,
            block_replicas: views(self.block_replicas@),
            expires_at: self.expires_at,
            node_epoch: self.node_epoch,
            charge: self.charge,
        }
    }
}

/// The cached versions.
pub struct CurrentCache {
    pub budget: u64,
    pub ttl: u64,
    pub generation: u64,
    pub charged: u64,
    pub entries: Table<Vec<u8>, CacheEntry>,
}

/// The cached versions, as a value.
#[verifier::ext_equal]
pub struct CacheView {
    pub budget: u64,
    pub ttl: u64,
    pub generation: u64,
    pub charged: u64,
    pub entries: Map<Seq<u8>, CacheEntryView>,
}

impl View for CurrentCache {
    type V = CacheView;

    open spec fn view(&self) -> CacheView {
        CacheView {
            budget: self.budget,
            ttl: self.ttl,
            generation: self.generation,
            charged: self.charged,
            entries: self.entries@,
        }
    }
}

/// What an entry costs.
pub open spec fn entry_weight() -> spec_fn(CacheEntryView) -> nat {
    |entry: CacheEntryView| entry.charge as nat
}

/// What extents cost: the bytes of their names and digests.
pub open spec fn extents_charge(extents: Seq<ExtentView>) -> nat
    decreases extents.len(),
{
    if extents.len() == 0 {
        0
    } else {
        extents_charge(extents.drop_last()) + extents.last().block_id.len()
            + extents.last().digest.len()
    }
}

/// What caching a version under a key costs.
pub open spec fn charge_of(key: Seq<u8>, extents: Seq<ExtentView>) -> nat {
    key.len() + extents_charge(extents)
}

/// Whether a layout uses a block.
pub open spec fn uses_block(extents: Seq<ExtentView>, block_id: Seq<u8>) -> bool {
    exists|i: int|
        #![trigger extents[i]]
        0 <= i < extents.len() && extents[i].block_id == block_id
}

/// Whether a layout uses one of some blocks.
pub open spec fn uses_any(extents: Seq<ExtentView>, block_ids: Seq<Seq<u8>>) -> bool {
    exists|i: int|
        #![trigger block_ids[i]]
        0 <= i < block_ids.len() && uses_block(extents, block_ids[i])
}

impl CacheView {
    /// What is true of the cache at any time.
    pub open spec fn wf(self) -> bool {
        &&& self.entries.dom().finite()
        &&& self.charged == total(self.entries, entry_weight())
        &&& self.charged <= self.budget
    }

    /// The generation in which an answer may be asked for, while generations last.
    pub open spec fn token(self) -> Option<u64> {
        if self.generation == u64::MAX {
            None
        } else {
            Some(self.generation)
        }
    }

    /// The next generation.
    pub open spec fn next_generation(self) -> u64 {
        if self.generation == u64::MAX {
            u64::MAX
        } else {
            (self.generation + 1) as u64
        }
    }

    /// The cache with only those entries that are in a set.
    pub open spec fn keeping(self, kept: Set<Seq<u8>>) -> CacheView {
        let entries = self.entries.restrict(kept);
        CacheView { charged: total(entries, entry_weight()) as u64, entries, ..self }
    }

    /// The cache after everything was forgotten.
    pub open spec fn cleared(self) -> CacheView {
        CacheView {
            generation: self.next_generation(),
            charged: 0,
            entries: Map::empty(),
            ..self
        }
    }

    /// The cache after it was told that a key has at least some version.
    pub open spec fn invalidated_before(self, key: Seq<u8>, minimum_version: u64) -> CacheView {
        CacheView {
            generation: self.next_generation(),
            ..self.keeping(
                Set::new(
                    |k: Seq<u8>|
                        self.entries.contains_key(k) && !(k == key
                            && self.entries[k].layout.version < minimum_version),
                ),
            )
        }
    }

    /// The cache after some blocks were condemned.
    pub open spec fn invalidated_blocks(self, block_ids: Seq<Seq<u8>>) -> CacheView {
        CacheView {
            generation: self.next_generation(),
            ..self.keeping(
                Set::new(
                    |k: Seq<u8>|
                        self.entries.contains_key(k) && !uses_any(
                            self.entries[k].layout.extents,
                            block_ids,
                        ),
                ),
            )
        }
    }

    /// Whether an entry still answers for its key.
    pub open spec fn fresh(self, key: Seq<u8>, node_epoch: u64, now: u64) -> bool {
        self.entries.contains_key(key) && self.entries[key].expires_at > now
            && self.entries[key].node_epoch == node_epoch
    }

    /// The cache after a look at a key, which drops an entry that no longer answers for it.
    pub open spec fn looked_up(self, key: Seq<u8>, node_epoch: u64, now: u64) -> CacheView {
        if self.fresh(key, node_epoch, now) {
            self
        } else {
            self.keeping(Set::new(|k: Seq<u8>| self.entries.contains_key(k) && k != key))
        }
    }

    /// When an entry would expire: the lease that came with the answer counts from the moment it
    /// was asked for, and no entry lives longer than the cache's own limit.
    pub open spec fn expiry(self, ttl_millis: u64, requested_at: u64) -> u64 {
        let granted = millis_to_nanos(ttl_millis);
        later(
            requested_at,
            if granted < self.ttl {
                granted
            } else {
                self.ttl
            },
        )
    }

    /// Whether an answer may be cached.
    pub open spec fn accepts(
        self,
        token: u64,
        key: Seq<u8>,
        resolved: ResolvedView,
        requested_at: u64,
        node_epoch: u64,
        now: u64,
    ) -> bool {
        &&& self.token() == Some(token)
        &&& resolved.layout is Some
        &&& resolved.current_lease is Some
        &&& resolved.current_lease->0.version == resolved.layout->0.version
        &&& resolved.current_lease->0.lease_epoch == node_epoch
        &&& self.expiry(resolved.current_lease->0.ttl_millis, requested_at) > now
        &&& !(self.entries.contains_key(key) && self.entries[key].layout.version
            > resolved.layout->0.version)
        &&& total(self.entries.remove(key), entry_weight()) + charge_of(
            key,
            resolved.layout->0.extents,
        ) <= self.budget
    }

    /// The cache after an answer was offered to it.
    pub open spec fn offered(
        self,
        token: u64,
        key: Seq<u8>,
        resolved: ResolvedView,
        requested_at: u64,
        node_epoch: u64,
        now: u64,
    ) -> CacheView {
        if !self.accepts(token, key, resolved, requested_at, node_epoch, now) {
            self
        } else {
            let charge = charge_of(key, resolved.layout->0.extents);
            CacheView {
                charged: (total(self.entries.remove(key), entry_weight()) + charge) as u64,
                entries: self.entries.insert(
                    key,
                    CacheEntryView {
                        layout: resolved.layout->0,
                        block_replicas: resolved.block_replicas,
                        expires_at: self.expiry(
                            resolved.current_lease->0.ttl_millis,
                            requested_at,
                        ),
                        node_epoch,
                        charge: charge as u64,
                    },
                ),
                ..self
            }
        }
    }
}

/// An answer that was asked for before an invalidation cannot be cached after it.
pub proof fn a_late_answer_is_never_cached(
    cache: CacheView,
    later_cache: CacheView,
    token: u64,
    key: Seq<u8>,
    resolved: ResolvedView,
    requested_at: u64,
    node_epoch: u64,
    now: u64,
)
    requires
        cache.token() == Some(token),
        later_cache.generation > cache.generation,
    ensures
        later_cache.offered(token, key, resolved, requested_at, node_epoch, now) == later_cache,
{
}

/// Every invalidation starts a new generation, while generations last, and none ever returns to
/// an earlier one.
pub proof fn invalidations_start_a_new_generation(
    cache: CacheView,
    key: Seq<u8>,
    version: u64,
    block_ids: Seq<Seq<u8>>,
)
    requires
        cache.token() is Some,
    ensures
        cache.cleared().generation == cache.generation + 1,
        cache.invalidated_before(key, version).generation == cache.generation + 1,
        cache.invalidated_blocks(block_ids).generation == cache.generation + 1,
{
}

/// An answer that may be cached is there afterwards as it came, and answers for its key until the
/// lease that came with it is over, counted from the moment it was asked for, or until the cache's
/// own limit. It may be cached if nothing was forgotten since it was asked for, it comes with a lease
/// of this node for its own version that is not over, nothing newer is cached, and there is room.
/// Otherwise nothing changes. What is cached of other keys stays as it is.
pub proof fn an_answer_is_cached_as_it_came_until_its_lease_ends(
    cache: CacheView,
    token: u64,
    key: Seq<u8>,
    resolved: ResolvedView,
    requested_at: u64,
    node_epoch: u64,
    now: u64,
    moment: u64,
    other: Seq<u8>,
)
    requires
        resolved.current_lease is Some ==> requested_at + resolved.current_lease->0.ttl_millis
            * 1_000_000 <= u64::MAX,
    ensures
        ({
            let next = cache.offered(token, key, resolved, requested_at, node_epoch, now);
            let layout = resolved.layout->0;
            let lease = resolved.current_lease->0;
            let until: int = if lease.ttl_millis * 1_000_000 < cache.ttl {
                requested_at + lease.ttl_millis * 1_000_000
            } else {
                requested_at + cache.ttl
            };
            let proper = cache.generation == token && token < u64::MAX && resolved.layout is Some
                && resolved.current_lease is Some && lease.version == layout.version
                && lease.lease_epoch == node_epoch && now < until && !(cache.entries.contains_key(
                key,
            ) && cache.entries[key].layout.version > layout.version);
            let room = total(cache.entries.remove(key), entry_weight()) + charge_of(
                key,
                layout.extents,
            ) <= cache.budget;
            &&& proper && room ==> {
                &&& next.entries.contains_key(key)
                &&& next.entries[key].layout == layout
                &&& next.entries[key].block_replicas == resolved.block_replicas
                &&& next.entries[key].node_epoch == node_epoch
                &&& next.entries[key].expires_at == until
                &&& next.fresh(key, node_epoch, moment) <==> moment < until
            }
            &&& !(proper && room) ==> next == cache
            &&& other != key ==> next.entries.contains_key(other) == cache.entries.contains_key(
                other,
            ) && next.entries[other] == cache.entries[other]
            &&& next.generation == cache.generation
            &&& next.budget == cache.budget
            &&& next.ttl == cache.ttl
        }),
{
    if resolved.current_lease is Some {
        let ttl_millis = resolved.current_lease->0.ttl_millis;
        assert(ttl_millis * 1_000_000 <= u64::MAX);
        assert(millis_to_nanos(ttl_millis) == ttl_millis * 1_000_000);
    }
}

/// A new version makes the cache forget the older versions of its key and nothing else, condemned
/// blocks make it forget exactly the versions that use them, and a lost stream of changes makes it
/// forget everything. Whatever was asked for before any of these is not cached afterwards.
pub proof fn the_cache_forgets_exactly_what_is_out_of_date(
    cache: CacheView,
    key: Seq<u8>,
    minimum_version: u64,
    block_ids: Seq<Seq<u8>>,
    other: Seq<u8>,
)
    requires
        cache.generation < u64::MAX,
    ensures
        ({
            let next = cache.invalidated_before(key, minimum_version);
            &&& next.entries.contains_key(other) <==> cache.entries.contains_key(other) && !(other
                == key && cache.entries[other].layout.version < minimum_version)
            &&& next.entries.contains_key(other) ==> next.entries[other] == cache.entries[other]
            &&& next.generation == cache.generation + 1
            &&& next.budget == cache.budget
            &&& next.ttl == cache.ttl
        }),
        ({
            let next = cache.invalidated_blocks(block_ids);
            let extents = cache.entries[other].layout.extents;
            &&& next.entries.contains_key(other) <==> cache.entries.contains_key(other) && forall|
                i: int,
                j: int,
            |
                #![trigger extents[i], block_ids[j]]
                0 <= i < extents.len() && 0 <= j < block_ids.len() ==> extents[i].block_id
                    != block_ids[j]
            &&& next.entries.contains_key(other) ==> next.entries[other] == cache.entries[other]
            &&& next.generation == cache.generation + 1
            &&& next.budget == cache.budget
            &&& next.ttl == cache.ttl
        }),
        ({
            let next = cache.cleared();
            &&& !next.entries.contains_key(other)
            &&& next.generation == cache.generation + 1
            &&& next.budget == cache.budget
            &&& next.ttl == cache.ttl
        }),
{
    let extents = cache.entries[other].layout.extents;
    if uses_any(extents, block_ids) {
        let j = choose|j: int|
            #![trigger block_ids[j]]
            0 <= j < block_ids.len() && uses_block(extents, block_ids[j]);
        let i = choose|i: int|
            #![trigger extents[i]]
            0 <= i < extents.len() && extents[i].block_id == block_ids[j];
        assert(extents[i].block_id == block_ids[j]);
    } else {
        assert forall|i: int, j: int|
            #![trigger extents[i], block_ids[j]]
            0 <= i < extents.len() && 0 <= j < block_ids.len() implies extents[i].block_id
            != block_ids[j] by {
            assert(!uses_block(extents, block_ids[j]));
        }
    }
}

/// An entry answers for its key from this node's epoch until it expires. A look at the key takes away
/// nothing but an entry that no longer answers.
pub proof fn a_look_takes_away_only_what_no_longer_answers(
    cache: CacheView,
    key: Seq<u8>,
    node_epoch: u64,
    now: u64,
    other: Seq<u8>,
)
    ensures
        cache.fresh(key, node_epoch, now) <==> cache.entries.contains_key(key) && now
            < cache.entries[key].expires_at && cache.entries[key].node_epoch == node_epoch,
        ({
            let next = cache.looked_up(key, node_epoch, now);
            &&& next.entries.contains_key(other) <==> cache.entries.contains_key(other) && (other
                != key || (now < cache.entries[key].expires_at && cache.entries[key].node_epoch
                == node_epoch))
            &&& next.entries.contains_key(other) ==> next.entries[other] == cache.entries[other]
            &&& next.generation == cache.generation
        }),
{
}

/// What caching a version costs is the bytes of its key and, for every extent, those of its block's name
/// and digest.
pub proof fn a_version_costs_the_bytes_of_its_names(
    key: Seq<u8>,
    extents: Seq<ExtentView>,
    extent: ExtentView,
)
    ensures
        charge_of(key, Seq::empty()) == key.len(),
        charge_of(key, extents.push(extent)) == charge_of(key, extents) + extent.block_id.len()
            + extent.digest.len(),
{
    assert(extents.push(extent).drop_last() =~= extents);
}

/// After a key is known to have some version, the cache holds no older version of it, and what it
/// holds of other keys is untouched.
pub proof fn no_older_version_survives_an_invalidation(
    cache: CacheView,
    key: Seq<u8>,
    version: u64,
    other: Seq<u8>,
)
    requires
        other != key,
    ensures
        cache.invalidated_before(key, version).entries.contains_key(key) ==> cache.invalidated_before(
            key,
            version,
        ).entries[key].layout.version >= version,
        cache.invalidated_before(key, version).entries.contains_key(other)
            == cache.entries.contains_key(other),
        cache.entries.contains_key(other) ==> cache.invalidated_before(key, version).entries[other]
            == cache.entries[other],
{
}

/// Whether a layout uses a block.
pub fn layout_uses_block(extents: &Vec<ExtentRecord>, block_id: &Vec<u8>) -> (used: bool)
    ensures
        used == uses_block(views(extents@), block_id@),
{
    let ghost all = views(extents@);
    let mut i: usize = 0;
    while i < extents.len()
        invariant
            i <= extents@.len(),
            all == views(extents@),
            forall|j: int| #![trigger all[j]] 0 <= j < i ==> all[j].block_id != block_id@,
        decreases extents.len() - i,
    {
        if same_bytes(&extents[i].block_id, block_id) {
            assert(all[i as int].block_id == block_id@);
            return true;
        }
        i = i + 1;
    }
    false
}

/// Whether a layout uses one of some blocks.
pub fn layout_uses_any(extents: &Vec<ExtentRecord>, block_ids: &Vec<Vec<u8>>) -> (used: bool)
    ensures
        used == uses_any(views(extents@), views(block_ids@)),
{
    let ghost ids = views(block_ids@);
    let mut i: usize = 0;
    while i < block_ids.len()
        invariant
            i <= block_ids@.len(),
            ids == views(block_ids@),
            forall|j: int|
                #![trigger ids[j]]
                0 <= j < i ==> !uses_block(views(extents@), ids[j]),
        decreases block_ids.len() - i,
    {
        if layout_uses_block(extents, &block_ids[i]) {
            assert(uses_block(views(extents@), ids[i as int]));
            return true;
        }
        i = i + 1;
    }
    false
}

/// What caching a version under a key costs, if it can be counted.
fn count_charge(key: &Vec<u8>, extents: &Vec<ExtentRecord>) -> (charge: Option<u64>)
    ensures
        match charge {
            Some(charge) => charge == charge_of(key@, views(extents@)),
            None => charge_of(key@, views(extents@)) > u64::MAX,
        },
{
    let ghost all = views(extents@);
    let mut charge: u64 = key.len() as u64;
    let mut i: usize = 0;
    while i < extents.len()
        invariant
            i <= extents@.len(),
            all == views(extents@),
            charge == charge_of(key@, all.take(i as int)),
        decreases extents.len() - i,
    {
        proof {
            assert(all.take(i + 1).drop_last() =~= all.take(i as int));
            lemma_charge_prefix(all, i + 1);
        }
        let added: u64 = match (extents[i].block_id.len() as u64).checked_add(
            extents[i].digest.len() as u64,
        ) {
            Some(added) => added,
            None => return None,
        };
        charge = match charge.checked_add(added) {
            Some(charge) => charge,
            None => return None,
        };
        i = i + 1;
    }
    assert(all.take(i as int) =~= all);
    Some(charge)
}

proof fn lemma_charge_prefix(extents: Seq<ExtentView>, n: int)
    requires
        0 <= n <= extents.len(),
    ensures
        extents_charge(extents.take(n)) <= extents_charge(extents),
    decreases extents.len(),
{
    if n == extents.len() {
        assert(extents.take(n) =~= extents);
    } else {
        lemma_charge_prefix(extents.drop_last(), n);
        assert(extents.drop_last().take(n) =~= extents.take(n));
    }
}

impl CurrentCache {
    /// An empty cache.
    pub fn new(budget: u64, ttl: u64) -> (cache: Self)
        ensures
            cache@.wf(),
            cache@ == (CacheView { budget, ttl, generation: 0, charged: 0, entries: Map::empty() }),
    {
        proof {
            lemma_total_empty::<Seq<u8>, CacheEntryView>(entry_weight());
        }
        CurrentCache { budget, ttl, generation: 0, charged: 0, entries: Table::new() }
    }

    /// The generation in which an answer may be asked for, while generations last.
    pub fn token(&self) -> (token: Option<u64>)
        ensures
            token == self@.token(),
    {
        if self.generation == u64::MAX {
            None
        } else {
            Some(self.generation)
        }
    }

    /// What the cached versions cost.
    pub fn charged(&self) -> (charged: u64)
        ensures
            charged == self@.charged,
    {
        self.charged
    }

    /// Forgets everything.
    pub fn clear(&mut self)
        requires
            old(self)@.wf(),
        ensures
            final(self)@.wf(),
            final(self)@ == old(self)@.cleared(),
    {
        proof {
            lemma_total_empty::<Seq<u8>, CacheEntryView>(entry_weight());
        }
        self.generation = self.generation.saturating_add(1);
        self.charged = 0;
        self.entries = Table::new();
    }

    fn drop_entries(&mut self, keys: &Vec<Vec<u8>>, Ghost(dropped): Ghost<Set<Seq<u8>>>)
        requires
            old(self)@.wf(),
            keys_are(keys@, dropped),
        ensures
            final(self)@.wf(),
            final(self)@ == old(self)@.keeping(
                Set::new(|k: Seq<u8>| old(self)@.entries.contains_key(k) && !dropped.contains(k)),
            ),
    {
        let ghost before = self@;
        let mut i: usize = 0;
        while i < keys.len()
            invariant
                i <= keys@.len(),
                keys_are(keys@, dropped),
                self@.wf(),
                self@ == (CacheView {
                    charged: self@.charged,
                    entries: self@.entries,
                    ..before
                }),
                self@.entries =~= before.entries.remove_keys(
                    Set::new(
                        |k: Seq<u8>|
                            exists|j: int| #![trigger keys@[j]] 0 <= j < i && keys@[j]@ == k,
                    ),
                ),
            decreases keys.len() - i,
        {
            let ghost so_far = self@;
            match self.entries.remove(&keys[i]) {
                Some(entry) => {
                    proof {
                        lemma_total_remove(so_far.entries, entry_weight(), keys@[i as int]@);
                        assert(self.entries@.dom() =~= so_far.entries.dom().remove(
                            keys@[i as int]@,
                        ));
                    }
                    self.charged = self.charged - entry.charge;
                },
                None => {
                    assert(self.entries@ =~= so_far.entries);
                },
            }
            i = i + 1;
        }
        proof {
            let kept = Set::new(
                |k: Seq<u8>| before.entries.contains_key(k) && !dropped.contains(k),
            );
            assert(self@.entries =~= before.entries.restrict(kept)) by {
                assert forall|k: Seq<u8>| before.entries.contains_key(k) implies (dropped.contains(
                    k,
                ) == exists|j: int| #![trigger keys@[j]] 0 <= j < i && keys@[j]@ == k) by {
                    if dropped.contains(k) {
                        let j = choose|j: int|
                            #![trigger keys@[j]]
                            0 <= j < keys@.len() && keys@[j]@ == k;
                        assert(keys@[j]@ == k);
                    }
                }
            }
        }
    }

    /// Forgets every version of a key below a version that it is known to have.
    pub fn invalidate_before(&mut self, key: &Vec<u8>, minimum_version: u64)
        requires
            old(self)@.wf(),
        ensures
            final(self)@.wf(),
            final(self)@ == old(self)@.invalidated_before(key@, minimum_version),
    {
        let ghost before = self@;
        let is_old = |k: &Vec<u8>, entry: &CacheEntry| -> (met: bool)
            ensures
                met == (k@ == key@ && entry@.layout.version < minimum_version),
        {
            same_bytes(k, key) && entry.layout.version < minimum_version
        };
        let keys = self.entries.keys_where(
            is_old,
            Ghost(
                |k: Seq<u8>, entry: CacheEntryView|
                    k == key@ && entry.layout.version < minimum_version,
            ),
        );
        let ghost dropped = Set::new(
            |k: Seq<u8>|
                before.entries.contains_key(k) && (|k: Seq<u8>, entry: CacheEntryView|
                    k == key@ && entry.layout.version < minimum_version)(k, before.entries[k]),
        );
        self.drop_entries(&keys, Ghost(dropped));
        self.generation = self.generation.saturating_add(1);
        proof {
            assert(Set::new(
                |k: Seq<u8>| before.entries.contains_key(k) && !dropped.contains(k),
            ) =~= Set::new(
                |k: Seq<u8>|
                    before.entries.contains_key(k) && !(k == key@
                        && before.entries[k].layout.version < minimum_version),
            ));
        }
    }

    /// Forgets every version that uses one of some blocks.
    pub fn invalidate_blocks(&mut self, block_ids: &Vec<Vec<u8>>)
        requires
            old(self)@.wf(),
        ensures
            final(self)@.wf(),
            final(self)@ == old(self)@.invalidated_blocks(views(block_ids@)),
    {
        let ghost before = self@;
        let ghost ids = views(block_ids@);
        let uses_them = |k: &Vec<u8>, entry: &CacheEntry| -> (met: bool)
            ensures
                met == uses_any(entry@.layout.extents, views(block_ids@)),
        {
            layout_uses_any(&entry.layout.extents, block_ids)
        };
        let keys = self.entries.keys_where(
            uses_them,
            Ghost(|k: Seq<u8>, entry: CacheEntryView| uses_any(entry.layout.extents, ids)),
        );
        let ghost dropped = Set::new(
            |k: Seq<u8>|
                before.entries.contains_key(k) && (|k: Seq<u8>, entry: CacheEntryView|
                    uses_any(entry.layout.extents, ids))(k, before.entries[k]),
        );
        self.drop_entries(&keys, Ghost(dropped));
        self.generation = self.generation.saturating_add(1);
        proof {
            assert(Set::new(
                |k: Seq<u8>| before.entries.contains_key(k) && !dropped.contains(k),
            ) =~= Set::new(
                |k: Seq<u8>|
                    before.entries.contains_key(k) && !uses_any(
                        before.entries[k].layout.extents,
                        ids,
                    ),
            ));
        }
    }

    /// What the cache answers for a key. An entry that no longer answers for it is dropped.
    pub fn get(&mut self, key: &Vec<u8>, node_epoch: u64, now: u64) -> (found: Option<&CacheEntry>)
        requires
            old(self)@.wf(),
        ensures
            final(self)@.wf(),
            final(self)@ == old(self)@.looked_up(key@, node_epoch, now),
            match found {
                Some(entry) => old(self)@.fresh(key@, node_epoch, now) && entry@ == old(
                    self,
                )@.entries[key@],
                None => !old(self)@.fresh(key@, node_epoch, now),
            },
    {
        let ghost before = self@;
        let fresh: bool = match self.entries.get(key) {
            Some(entry) => entry.expires_at > now && entry.node_epoch == node_epoch,
            None => false,
        };
        if !fresh {
            match self.entries.remove(key) {
                Some(entry) => {
                    proof {
                        lemma_total_remove(before.entries, entry_weight(), key@);
                        assert(self.entries@.dom() =~= before.entries.dom().remove(key@));
                    }
                    self.charged = self.charged - entry.charge;
                },
                None => {
                    assert(self.entries@ =~= before.entries);
                },
            }
            proof {
                assert(self.entries@ =~= before.entries.restrict(
                    Set::new(|k: Seq<u8>| before.entries.contains_key(k) && k != key@),
                ));
            }
            return None;
        }
        self.entries.get(key)
    }

    /// Offers an answer to the cache and says whether it was taken.
    pub fn insert(
        &mut self,
        token: u64,
        key: Vec<u8>,
        resolved: &ResolveObjectResponse,
        requested_at: u64,
        node_epoch: u64,
        now: u64,
    ) -> (taken: bool)
        requires
            old(self)@.wf(),
        ensures
            final(self)@.wf(),
            taken == old(self)@.accepts(token, key@, resolved@, requested_at, node_epoch, now),
            final(self)@ == old(self)@.offered(
                token,
                key@,
                resolved@,
                requested_at,
                node_epoch,
                now,
            ),
    {
        let ghost before = self@;
        let ghost name = key@;
        if self.generation == u64::MAX || self.generation != token {
            return false;
        }
        let (layout, lease) = match (&resolved.layout, resolved.current_lease) {
            (Some(layout), Some(lease)) => (layout, lease),
            _ => return false,
        };
        if lease.version != layout.version || lease.lease_epoch != node_epoch {
            return false;
        }
        let granted: u64 = nanos_of_millis(lease.ttl_millis);
        let expires_at: u64 = moment_after(
            requested_at,
            if granted < self.ttl {
                granted
            } else {
                self.ttl
            },
        );
        if expires_at <= now {
            return false;
        }
        let mut freed: u64 = 0;
        match self.entries.get(&key) {
            Some(entry) => {
                if entry.layout.version > layout.version {
                    return false;
                }
                proof {
                    lemma_total_remove(before.entries, entry_weight(), name);
                }
                freed = entry.charge;
            },
            None => {
                assert(before.entries.remove(name) =~= before.entries);
            },
        }
        let remaining: u64 = self.charged - freed;
        assert(remaining == total(before.entries.remove(name), entry_weight()));
        let charge: u64 = match count_charge(&key, &layout.extents) {
            Some(charge) => charge,
            None => return false,
        };
        if charge > self.budget - remaining {
            return false;
        }
        let entry = CacheEntry {
            layout: layout.duplicate(),
            block_replicas: copy_replica_sets(&resolved.block_replicas),
            expires_at,
            node_epoch,
            charge,
        };
        let ghost entry_view = entry@;
        self.charged = remaining + charge;
        self.entries.insert(key, entry);
        proof {
            assert(before.entries.remove(name).dom() =~= before.entries.dom().remove(name));
            lemma_total_insert(before.entries.remove(name), entry_weight(), name, entry_view);
            assert(before.entries.remove(name).insert(name, entry_view) =~= before.entries.insert(
                name,
                entry_view,
            ));
        }
        true
    }
}

} // verus!
