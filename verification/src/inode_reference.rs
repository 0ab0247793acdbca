//! The node's references to inodes. The metadata service only knows whether the node holds a
//! reference; how many lookups and opens stand behind it is counted here.
use crate::current_cache::nanos_of_millis;
#[allow(unused_imports)]
use crate::current_cache::millis_to_nanos;
use crate::staging::moment_after;
#[allow(unused_imports)]
use crate::staging::later;
#[allow(unused_imports)]
use crate::session::each;
#[allow(unused_imports)]
use crate::table::keys_are;
use crate::table::Table;
use vstd::prelude::*;

verus! {

/// The inode of the root directory, which needs no reference.
pub const ROOT_INODE: u64 = 1;

/// A reference to an inode.
#[derive(Clone, Copy, Debug, PartialEq, Eq, Structural)]
pub struct LocalFilesystemInodeReference {
    /// How many lookups and opens stand behind it. 0 is a reservation that nobody uses yet.
    pub count: u64,
    /// Which cycle of references it belongs to.
    pub generation: u64,
    pub lease_until: u64,
    /// Whether the metadata service is to be told at once when the last reference goes.
    pub eager_meta_release: bool,
}

impl View for LocalFilesystemInodeReference {
    type V = LocalFilesystemInodeReference;

    open spec fn view(&self) -> LocalFilesystemInodeReference {
        *self
    }
}

/// The references.
pub struct InodeReferences {
    pub references: Table<u64, LocalFilesystemInodeReference>,
}

/// The references, as a value.
#[verifier::ext_equal]
pub struct ReferencesView {
    pub references: Map<u64, LocalFilesystemInodeReference>,
}

impl View for InodeReferences {
    type V = ReferencesView;

    open spec fn view(&self) -> ReferencesView {
        ReferencesView { references: self.references@ }
    }
}

/// The generation that a counter gives: the counter itself, or 1 where it has come round to 0.
pub open spec fn generation_from(counter: u64) -> u64 {
    if counter == 0 {
        1
    } else {
        counter
    }
}

/// The counter after it gave a generation.
pub open spec fn counter_after(counter: u64) -> u64 {
    if generation_from(counter) == u64::MAX {
        0
    } else {
        (generation_from(counter) + 1) as u64
    }
}

/// The next generation of references, from the one counter that all nodes of a process share. It
/// is never 0.
pub fn next_filesystem_reference_generation(counter: &mut u64) -> (generation: u64)
    ensures
        generation == generation_from(*old(counter)),
        *final(counter) == counter_after(*old(counter)),
        generation != 0,
{
    let generation: u64 = if *counter == 0 {
        1
    } else {
        *counter
    };
    *counter = if generation == u64::MAX {
        0
    } else {
        generation + 1
    };
    generation
}

/// No generation is 0, two that follow each other differ, and they count up from 1 until there are no
/// more, when they begin anew.
pub proof fn generations_count_up(counter: u64)
    ensures
        generation_from(counter) != 0,
        generation_from(0) == 1,
        generation_from(counter_after(counter)) != generation_from(counter),
        generation_from(counter) < u64::MAX ==> generation_from(counter_after(counter))
            == generation_from(counter) + 1,
        generation_from(counter) == u64::MAX ==> generation_from(counter_after(counter)) == 1,
        counter > 0 ==> generation_from(counter) == counter,
{
}

/// One more, as far as the count goes.
pub open spec fn one_more(count: u64) -> u64 {
    if count == u64::MAX {
        u64::MAX
    } else {
        (count + 1) as u64
    }
}

impl ReferencesView {
    /// The generation that a new reference to an inode begins, if one begins. The counter is the
    /// one that all nodes of a process share.
    pub open spec fn begun(self, inode: u64, counter: u64, now: u64) -> Option<u64> {
        if inode == ROOT_INODE || self.shareable(inode, now) {
            None
        } else {
            Some(generation_from(counter))
        }
    }

    /// The counter after a lookup or an open. It goes on only where a new reference begins.
    pub open spec fn counted(self, inode: u64, counter: u64, now: u64) -> u64 {
        if self.begun(inode, counter, now) is Some {
            counter_after(counter)
        } else {
            counter
        }
    }

    /// What the last one to give references to an inode back takes along: the generation, and
    /// whether the metadata service should hear of it at once.
    pub open spec fn given_back(self, inode: u64, count: u64) -> Option<(u64, bool)> {
        if self.last_release(inode, count) {
            Some((self.references[inode].generation, self.references[inode].eager_meta_release))
        } else {
            None
        }
    }

    /// Whether a list holds each inode in use once, with its generation.
    pub open spec fn listed(self, snapshot: Seq<(u64, u64)>) -> bool {
        &&& forall|i: int|
            #![trigger snapshot[i]]
            0 <= i < snapshot.len() ==> self.references.contains_key(snapshot[i].0)
                && self.references[snapshot[i].0].count != 0
                && self.references[snapshot[i].0].generation == snapshot[i].1
        &&& forall|i: int, j: int|
            #![trigger snapshot[i], snapshot[j]]
            0 <= i < j < snapshot.len() ==> snapshot[i].0 != snapshot[j].0
        &&& forall|inode: u64| #[trigger]
            self.references.contains_key(inode) && self.references[inode].count != 0
                ==> exists|i: int|
                #![trigger snapshot[i]]
                0 <= i < snapshot.len() && snapshot[i].0 == inode
    }

    /// Whether the inode has a reference that a lookup can share.
    pub open spec fn shareable(self, inode: u64, now: u64) -> bool {
        self.references.contains_key(inode) && (self.references[inode].count != 0
            || self.references[inode].lease_until > now)
    }

    /// The references after a lookup or an open.
    pub open spec fn acquired(self, inode: u64, counter: u64, now: u64) -> ReferencesView {
        if inode == ROOT_INODE {
            self
        } else if self.shareable(inode, now) {
            ReferencesView {
                references: self.references.insert(
                    inode,
                    LocalFilesystemInodeReference {
                        count: one_more(self.references[inode].count),
                        ..self.references[inode]
                    },
                ),
                ..self
            }
        } else {
            ReferencesView {
                references: self.references.insert(
                    inode,
                    LocalFilesystemInodeReference {
                        count: 1,
                        generation: generation_from(counter),
                        lease_until: now,
                        eager_meta_release: false,
                    },
                ),
            }
        }
    }

    /// The references after a reservation that came with a directory.
    pub open spec fn reserved(
        self,
        inode: u64,
        generation: u64,
        lease_millis: u64,
        now: u64,
    ) -> ReferencesView {
        let until = later(now, millis_to_nanos(lease_millis));
        if inode == ROOT_INODE || generation == 0 || lease_millis == 0 {
            self
        } else if !self.references.contains_key(inode) {
            ReferencesView {
                references: self.references.insert(
                    inode,
                    LocalFilesystemInodeReference {
                        count: 0,
                        generation,
                        lease_until: until,
                        eager_meta_release: false,
                    },
                ),
                ..self
            }
        } else if self.references[inode].count != 0 {
            self
        } else {
            ReferencesView {
                references: self.references.insert(
                    inode,
                    LocalFilesystemInodeReference {
                        generation,
                        lease_until: if until > self.references[inode].lease_until {
                            until
                        } else {
                            self.references[inode].lease_until
                        },
                        ..self.references[inode]
                    },
                ),
                ..self
            }
        }
    }

    /// The references after the metadata service granted one.
    pub open spec fn installed(
        self,
        inode: u64,
        generation: u64,
        lease_millis: u64,
        now: u64,
    ) -> ReferencesView {
        let until = later(now, millis_to_nanos(lease_millis));
        if inode == ROOT_INODE || generation == 0 {
            self
        } else if self.references.contains_key(inode) {
            let reference = self.references[inode];
            let newer = generation >= reference.generation;
            ReferencesView {
                references: self.references.insert(
                    inode,
                    LocalFilesystemInodeReference {
                        count: one_more(reference.count),
                        generation: if newer {
                            generation
                        } else {
                            reference.generation
                        },
                        lease_until: if newer {
                            until
                        } else {
                            reference.lease_until
                        },
                        ..reference
                    },
                ),
                ..self
            }
        } else {
            ReferencesView {
                references: self.references.insert(
                    inode,
                    LocalFilesystemInodeReference {
                        count: 1,
                        generation,
                        lease_until: until,
                        eager_meta_release: false,
                    },
                ),
                ..self
            }
        }
    }

    /// The references after the metadata service renewed a list of them.
    pub open spec fn renewed(self, renewals: Seq<(u64, u64)>, until: u64) -> ReferencesView
        decreases renewals.len(),
    {
        if renewals.len() == 0 {
            self
        } else {
            let earlier = self.renewed(renewals.drop_last(), until);
            let (inode, generation) = renewals.last();
            if earlier.references.contains_key(inode) && earlier.references[inode].generation
                == generation {
                ReferencesView {
                    references: earlier.references.insert(
                        inode,
                        LocalFilesystemInodeReference {
                            lease_until: until,
                            ..earlier.references[inode]
                        },
                    ),
                    ..earlier
                }
            } else {
                earlier
            }
        }
    }

    /// Whether the node may use the inode.
    pub open spec fn has_live(self, inode: u64, now: u64) -> bool {
        inode == ROOT_INODE || (self.references.contains_key(inode)
            && self.references[inode].lease_until > now)
    }

    /// The references after an inode lost its last name.
    pub open spec fn orphaned(self, inode: u64) -> ReferencesView {
        if !self.references.contains_key(inode) {
            self
        } else {
            ReferencesView {
                references: self.references.insert(
                    inode,
                    LocalFilesystemInodeReference {
                        eager_meta_release: true,
                        ..self.references[inode]
                    },
                ),
                ..self
            }
        }
    }

    /// Whether a release of some lookups is the last.
    pub open spec fn last_release(self, inode: u64, count: u64) -> bool {
        inode != ROOT_INODE && count != 0 && self.references.contains_key(inode)
            && self.references[inode].count <= count
    }

    /// The references after some lookups were released.
    pub open spec fn released(self, inode: u64, count: u64) -> ReferencesView {
        if inode == ROOT_INODE || count == 0 || !self.references.contains_key(inode) {
            self
        } else if self.references[inode].count > count {
            ReferencesView {
                references: self.references.insert(
                    inode,
                    LocalFilesystemInodeReference {
                        count: (self.references[inode].count - count) as u64,
                        ..self.references[inode]
                    },
                ),
                ..self
            }
        } else {
            ReferencesView { references: self.references.remove(inode), ..self }
        }
    }
}

/// As many releases as lookups leave no reference, and one fewer leaves one.
pub proof fn a_reference_lives_as_long_as_its_lookups(
    state: ReferencesView,
    inode: u64,
    count: u64,
    counter: u64,
    now: u64,
)
    requires
        inode != 1,
        state.references.contains_key(inode),
        0 < state.references[inode].count < u64::MAX,
        0 < count < state.references[inode].count,
    ensures
        !state.released(inode, state.references[inode].count).references.contains_key(inode),
        state.released(inode, count).references.contains_key(inode),
        state.acquired(inode, counter, now).released(inode, 1) == state,
{
    assert(state.acquired(inode, counter, now).released(inode, 1) =~= state) by {
        assert(state.acquired(inode, counter, now).released(inode, 1).references
            =~= state.references);
    }
}

impl ReferencesView {
    /// How many lookups of an inode have not been released.
    pub open spec fn held(self, inode: u64) -> int {
        if self.references.contains_key(inode) {
            self.references[inode].count as int
        } else {
            0
        }
    }
}

/// Every grant and every lookup counts as one, whatever came before it: after it one more lookup is
/// held than before. It leaves the references to other inodes alone. The root, and a grant without a
/// generation, leave everything as it was.
pub proof fn a_grant_and_a_lookup_count_as_one(
    state: ReferencesView,
    inode: u64,
    generation: u64,
    lease_millis: u64,
    counter: u64,
    now: u64,
    other: u64,
)
    requires
        state.held(inode) < u64::MAX,
    ensures
        ({
            let granted = state.installed(inode, generation, lease_millis, now);
            let known = state.references.contains_key(inode);
            &&& inode == 1 || generation == 0 ==> granted == state
            &&& inode != 1 && generation != 0 ==> {
                &&& granted.references.contains_key(inode)
                &&& granted.references[inode].count == state.held(inode) + 1
                &&& granted.references[inode].generation == if known
                    && state.references[inode].generation > generation {
                    state.references[inode].generation
                } else {
                    generation
                }
                &&& (!known || generation >= state.references[inode].generation) && now
                    + lease_millis * 1_000_000 <= u64::MAX
                    ==> granted.references[inode].lease_until == now + lease_millis * 1_000_000
                &&& known && generation < state.references[inode].generation
                    ==> granted.references[inode].lease_until
                    == state.references[inode].lease_until
                &&& granted.references[inode].eager_meta_release <==> known
                    && state.references[inode].eager_meta_release
            }
            &&& other != inode ==> granted.references.contains_key(other)
                == state.references.contains_key(other) && granted.references[other]
                == state.references[other]
        }),
        ({
            let found = state.acquired(inode, counter, now);
            &&& inode == 1 ==> found == state
            &&& inode != 1 ==> {
                &&& found.references.contains_key(inode)
                &&& found.references[inode].count == state.held(inode) + 1
                &&& state.held(inode) > 0 || (state.references.contains_key(inode)
                    && state.references[inode].lease_until > now) ==> {
                    &&& found.references[inode].generation == state.references[inode].generation
                    &&& found.references[inode].lease_until == state.references[inode].lease_until
                    &&& found.references[inode].eager_meta_release
                        == state.references[inode].eager_meta_release
                }
                &&& state.held(inode) == 0 && !(state.references.contains_key(inode)
                    && state.references[inode].lease_until > now) ==> {
                    &&& found.references[inode].lease_until == now
                    &&& !found.references[inode].eager_meta_release
                    &&& state.begun(inode, counter, now) == Some(
                        found.references[inode].generation,
                    )
                }
            }
            &&& other != inode ==> found.references.contains_key(other)
                == state.references.contains_key(other) && found.references[other]
                == state.references[other]
        }),
{
    assert(lease_millis * 1_000_000 <= u64::MAX ==> millis_to_nanos(lease_millis) == lease_millis
        * 1_000_000);
}

/// A release takes away as many lookups as it says. Once none is left the reference is gone, and
/// whoever released the last is told its generation and whether the metadata service waits for it.
/// What one grant or lookup added, one release takes away.
pub proof fn a_release_takes_away_what_was_added(
    state: ReferencesView,
    inode: u64,
    count: u64,
    generation: u64,
    lease_millis: u64,
    counter: u64,
    now: u64,
    other: u64,
)
    requires
        inode != 1,
        state.held(inode) < u64::MAX,
    ensures
        ({
            let left = state.released(inode, count);
            &&& state.held(inode) > count ==> left.references.contains_key(inode)
                && left.references[inode] == (LocalFilesystemInodeReference {
                count: (state.held(inode) - count) as u64,
                ..state.references[inode]
            })
            &&& count > 0 && state.held(inode) <= count ==> !left.references.contains_key(inode)
            &&& count == 0 ==> left == state
            &&& other != inode ==> left.references.contains_key(other)
                == state.references.contains_key(other) && left.references[other]
                == state.references[other]
            &&& state.given_back(inode, count) is Some <==> state.references.contains_key(inode)
                && !left.references.contains_key(inode)
            &&& state.given_back(inode, count) matches Some((ended, eager)) ==> ended
                == state.references[inode].generation && eager
                == state.references[inode].eager_meta_release
        }),
        generation != 0 ==> state.installed(inode, generation, lease_millis, now).released(
            inode,
            1,
        ).held(inode) == state.held(inode),
        generation != 0 ==> (state.installed(inode, generation, lease_millis, now).released(
            inode,
            1,
        ).references.contains_key(inode) <==> state.held(inode) > 0),
        state.acquired(inode, counter, now).released(inode, 1).held(inode) == state.held(inode),
        state.acquired(inode, counter, now).released(inode, 1).references.contains_key(inode)
            <==> state.held(inode) > 0,
        state.released(1, count) == state,
{
}

/// A list of the references in use names exactly the inodes that somebody holds, each with its generation.
pub proof fn a_list_names_exactly_what_is_held(
    state: ReferencesView,
    snapshot: Seq<(u64, u64)>,
    inode: u64,
    generation: u64,
)
    requires
        state.listed(snapshot),
    ensures
        snapshot.contains((inode, generation)) <==> state.held(inode) > 0
            && state.references[inode].generation == generation,
{
    if state.held(inode) > 0 {
        assert(state.references.contains_key(inode) && state.references[inode].count != 0);
        let i = choose|i: int|
            #![trigger snapshot[i]]
            0 <= i < snapshot.len() && snapshot[i].0 == inode;
        assert(snapshot[i].1 == state.references[inode].generation);
        if state.references[inode].generation == generation {
            assert(snapshot[i] == (inode, generation));
        }
    }
    if snapshot.contains((inode, generation)) {
        let i = choose|i: int| 0 <= i < snapshot.len() && snapshot[i] == (inode, generation);
        assert(snapshot[i].0 == inode);
    }
}

/// Something that takes an inode up: a grant of the metadata service, or a lookup or an open here.
pub ghost enum Taking {
    Grant { generation: u64, lease_millis: u64, now: u64 },
    Lookup { counter: u64, now: u64 },
}

impl ReferencesView {
    /// The references after an inode was taken up some times.
    pub open spec fn taken_up(self, inode: u64, takings: Seq<Taking>) -> ReferencesView
        decreases takings.len(),
    {
        if takings.len() == 0 {
            self
        } else {
            let earlier = self.taken_up(inode, takings.drop_last());
            match takings.last() {
                Taking::Grant { generation, lease_millis, now } => earlier.installed(
                    inode,
                    generation,
                    lease_millis,
                    now,
                ),
                Taking::Lookup { counter, now } => earlier.acquired(inode, counter, now),
            }
        }
    }
}

/// As many releases as grants and lookups, and no fewer, end a reference.
pub proof fn as_many_releases_as_takings_end_a_reference(
    state: ReferencesView,
    inode: u64,
    takings: Seq<Taking>,
    count: u64,
)
    requires
        inode != 1,
        takings.len() > 0,
        state.held(inode) + takings.len() <= u64::MAX,
        forall|i: int|
            #![trigger takings[i]]
            0 <= i < takings.len() ==> !(takings[i] matches Taking::Grant { generation: 0, .. }),
    ensures
        state.taken_up(inode, takings).held(inode) == state.held(inode) + takings.len(),
        state.taken_up(inode, takings).references.contains_key(inode),
        state.taken_up(inode, takings).released(inode, count).references.contains_key(inode)
            <==> count < state.held(inode) + takings.len(),
        state.taken_up(inode, takings).released(inode, count).held(inode) == if count
            < state.held(inode) + takings.len() {
            state.held(inode) + takings.len() - count
        } else {
            0
        },
    decreases takings.len(),
{
    let rest = takings.drop_last();
    assert(takings.last() == takings[takings.len() - 1]);
    if rest.len() > 0 {
        assert forall|i: int| #![trigger rest[i]] 0 <= i < rest.len() implies !(
        rest[i] matches Taking::Grant { generation: 0, .. }) by {
            assert(rest[i] == takings[i]);
        }
        as_many_releases_as_takings_end_a_reference(state, inode, rest, count);
    } else {
        assert(state.taken_up(inode, rest) == state);
    }
}

/// A reservation counts as no lookup. It leaves a reference in use alone, never shortens a lease,
/// and keeps an inode that nobody uses for as long as it says.
pub proof fn a_reservation_is_no_lookup(
    state: ReferencesView,
    inode: u64,
    generation: u64,
    lease_millis: u64,
    now: u64,
    other: u64,
)
    requires
        now + lease_millis * 1_000_000 <= u64::MAX,
    ensures
        ({
            let next = state.reserved(inode, generation, lease_millis, now);
            let until = now + lease_millis * 1_000_000;
            let known = state.references.contains_key(inode);
            &&& next.held(inode) == state.held(inode)
            &&& state.held(inode) > 0 ==> next == state
            &&& inode == 1 || generation == 0 || lease_millis == 0 ==> next == state
            &&& inode != 1 && generation != 0 && lease_millis != 0 && state.held(inode)
                == 0 ==> {
                &&& next.references.contains_key(inode)
                &&& next.references[inode].generation == generation
                &&& next.references[inode].lease_until == if known
                    && state.references[inode].lease_until > until {
                    state.references[inode].lease_until as int
                } else {
                    until
                }
                &&& next.has_live(inode, now)
            }
            &&& other != inode ==> next.references.contains_key(other)
                == state.references.contains_key(other) && next.references[other]
                == state.references[other]
        }),
{
    assert(millis_to_nanos(lease_millis) == lease_millis * 1_000_000);
}

/// A renewal changes nothing but the leases of the references that it names with their generation,
/// and those end when it says.
pub proof fn a_renewal_changes_only_the_leases_that_it_names(
    state: ReferencesView,
    renewals: Seq<(u64, u64)>,
    until: u64,
    inode: u64,
)
    ensures
        ({
            let next = state.renewed(renewals, until);
            let before = state.references[inode];
            &&& next.references.contains_key(inode) <==> state.references.contains_key(inode)
            &&& state.references.contains_key(inode) ==> next.references[inode] == (
            LocalFilesystemInodeReference {
                lease_until: if renewals.contains((inode, before.generation)) {
                    until
                } else {
                    before.lease_until
                },
                ..before
            })
        }),
    decreases renewals.len(),
{
    if renewals.len() > 0 {
        let rest = renewals.drop_last();
        a_renewal_changes_only_the_leases_that_it_names(state, rest, until, inode);
        let wanted = (inode, state.references[inode].generation);
        assert(renewals =~= rest.push(renewals.last()));
        assert(renewals.contains(wanted) <==> rest.contains(wanted) || renewals.last() == wanted)
            by {
            if rest.contains(wanted) {
                let i = choose|i: int| 0 <= i < rest.len() && rest[i] == wanted;
                assert(renewals[i] == wanted);
            }
            if renewals.last() == wanted {
                assert(renewals[renewals.len() - 1] == wanted);
            }
        }
    }
}

/// An inode that lost its last name keeps its reference, which is given back at once when the last
/// lookup is released. An inode without a reference gets none.
pub proof fn an_orphan_keeps_its_reference(state: ReferencesView, inode: u64, other: u64)
    ensures
        ({
            let next = state.orphaned(inode);
            &&& next.references.contains_key(other) <==> state.references.contains_key(other)
            &&& state.references.contains_key(inode) ==> next.references[inode] == (
            LocalFilesystemInodeReference {
                eager_meta_release: true,
                ..state.references[inode]
            })
            &&& other != inode ==> next.references[other] == state.references[other]
        }),
{
}

/// The node may use an inode while its lease runs, and the root at any time.
pub proof fn an_inode_is_live_until_its_lease_ends(state: ReferencesView, inode: u64, now: u64)
    ensures
        state.has_live(1, now),
        inode != 1 && !state.references.contains_key(inode) ==> !state.has_live(
            inode,
            now,
        ),
        inode != 1 && state.references.contains_key(inode) ==> (state.has_live(inode, now)
            <==> now < state.references[inode].lease_until),
{
}

/// Two references that begin one after the other, in one node or in two that share the counter,
/// belong to different generations, and neither is 0.
pub proof fn references_of_a_process_differ_in_generation(
    first: ReferencesView,
    first_inode: u64,
    first_now: u64,
    second: ReferencesView,
    second_inode: u64,
    second_now: u64,
    counter: u64,
)
    requires
        first.begun(first_inode, counter, first_now) is Some,
        second.begun(
            second_inode,
            first.counted(first_inode, counter, first_now),
            second_now,
        ) is Some,
    ensures
        ({
            let one = first.begun(first_inode, counter, first_now)->0;
            let next = first.counted(first_inode, counter, first_now);
            let other = second.begun(second_inode, next, second_now)->0;
            &&& one != 0 && other != 0
            &&& one != other
            &&& one < u64::MAX ==> other == one + 1
            &&& first.acquired(first_inode, counter, first_now).references[first_inode].generation
                == one
            &&& second.acquired(second_inode, next, second_now).references[second_inode].generation
                == other
        }),
{
}

impl InodeReferences {
    /// No references.
    pub fn new() -> (state: Self)
        ensures
            state@ == (ReferencesView { references: Map::empty() }),
    {
        InodeReferences { references: Table::new() }
    }

    /// Counts a lookup or an open. A new cycle of references takes its generation from the counter
    /// of the process and returns it: under it the metadata service is to be asked for the
    /// reference.
    pub fn acquire_filesystem_inode_reference_local(
        &mut self,
        inode: u64,
        counter: &mut u64,
        now: u64,
    ) -> (started: Option<u64>)
        ensures
            final(self)@ == old(self)@.acquired(inode, *old(counter), now),
            *final(counter) == old(self)@.counted(inode, *old(counter), now),
            started == old(self)@.begun(inode, *old(counter), now),
    {
        let ghost before = self@;
        if inode == ROOT_INODE {
            return None;
        }
        if let Some(reference) = self.references.get(&inode) {
            let reference: LocalFilesystemInodeReference = *reference;
            if reference.count != 0 || reference.lease_until > now {
                self.references.insert(
                    inode,
                    LocalFilesystemInodeReference {
                        count: reference.count.saturating_add(1),
                        ..reference
                    },
                );
                return None;
            }
        }
        let generation: u64 = next_filesystem_reference_generation(counter);
        self.references.insert(
            inode,
            LocalFilesystemInodeReference {
                count: 1,
                generation,
                lease_until: now,
                eager_meta_release: false,
            },
        );
        Some(generation)
    }

    /// Notes a reservation that came with a directory. It does not touch a reference in use.
    pub fn install_filesystem_inode_reference_reservation(
        &mut self,
        inode: u64,
        generation: u64,
        lease_millis: u64,
        now: u64,
    )
        ensures
            final(self)@ == old(self)@.reserved(inode, generation, lease_millis, now),
    {
        if inode == ROOT_INODE || generation == 0 || lease_millis == 0 {
            return;
        }
        let until: u64 = moment_after(now, nanos_of_millis(lease_millis));
        let next: LocalFilesystemInodeReference = match self.references.get(&inode) {
            None => LocalFilesystemInodeReference {
                count: 0,
                generation,
                lease_until: until,
                eager_meta_release: false,
            },
            Some(reference) => {
                if reference.count != 0 {
                    return;
                }
                LocalFilesystemInodeReference {
                    generation,
                    lease_until: if until > reference.lease_until {
                        until
                    } else {
                        reference.lease_until
                    },
                    ..*reference
                }
            },
        };
        self.references.insert(inode, next);
    }

    /// Counts a lookup for which the metadata service granted a reference.
    pub fn install_filesystem_inode_reference(
        &mut self,
        inode: u64,
        generation: u64,
        lease_millis: u64,
        now: u64,
    )
        ensures
            final(self)@ == old(self)@.installed(inode, generation, lease_millis, now),
    {
        if inode == ROOT_INODE || generation == 0 {
            return;
        }
        let until: u64 = moment_after(now, nanos_of_millis(lease_millis));
        let next: LocalFilesystemInodeReference = match self.references.get(&inode) {
            None => LocalFilesystemInodeReference {
                count: 1,
                generation,
                lease_until: until,
                eager_meta_release: false,
            },
            Some(reference) => {
                let newer: bool = generation >= reference.generation;
                LocalFilesystemInodeReference {
                    count: reference.count.saturating_add(1),
                    generation: if newer {
                        generation
                    } else {
                        reference.generation
                    },
                    lease_until: if newer {
                        until
                    } else {
                        reference.lease_until
                    },
                    ..*reference
                }
            },
        };
        self.references.insert(inode, next);
    }

    /// The inodes in use with their generations, each once. Reservations are not among them.
    pub fn filesystem_inode_reference_snapshot(&self) -> (snapshot: Vec<(u64, u64)>)
        ensures
            self@.listed(snapshot@),
    {
        let used = |inode: &u64, reference: &LocalFilesystemInodeReference| -> (met: bool)
            ensures
                met == (reference@.count != 0),
        {
            reference.count != 0
        };
        let inodes = self.references.keys_where(
            used,
            Ghost(|inode: u64, reference: LocalFilesystemInodeReference| reference.count != 0),
        );
        let ghost set = Set::new(
            |inode: u64|
                self@.references.contains_key(inode) && (|
                    inode: u64,
                    reference: LocalFilesystemInodeReference,
                | reference.count != 0)(inode, self@.references[inode]),
        );
        let mut snapshot: Vec<(u64, u64)> = Vec::with_capacity(inodes.len());
        let mut i: usize = 0;
        while i < inodes.len()
            invariant
                i <= inodes@.len(),
                keys_are(inodes@, set),
                set == Set::new(
                    |inode: u64|
                        self@.references.contains_key(inode) && (|
                            inode: u64,
                            reference: LocalFilesystemInodeReference,
                        | reference.count != 0)(inode, self@.references[inode]),
                ),
                snapshot@.len() == i,
                forall|j: int|
                    #![trigger snapshot@[j]]
                    0 <= j < i ==> snapshot@[j] == (
                        inodes@[j],
                        self@.references[inodes@[j]].generation,
                    ),
            decreases inodes.len() - i,
        {
            assert(set.contains(inodes@[i as int]@));
            if let Some(reference) = self.references.get(&inodes[i]) {
                snapshot.push((inodes[i], reference.generation));
            }
            i = i + 1;
        }
        proof {
            assert forall|j: int| #![trigger snapshot@[j]] 0 <= j < snapshot@.len() implies
                self@.references.contains_key(snapshot@[j].0)
                && self@.references[snapshot@[j].0].count != 0 by {
                assert(set.contains(inodes@[j]@));
            }
            assert forall|j: int, l: int|
                #![trigger snapshot@[j], snapshot@[l]]
                0 <= j < l < snapshot@.len() implies snapshot@[j].0 != snapshot@[l].0 by {
                assert(inodes@[j]@ != inodes@[l]@);
            }
            assert forall|inode: u64| #[trigger]
                self@.references.contains_key(inode)
                    && self@.references[inode].count != 0 implies exists|j: int|
                #![trigger snapshot@[j]]
                0 <= j < snapshot@.len() && snapshot@[j].0 == inode by {
                assert(set.contains(inode));
                let j = choose|j: int|
                    #![trigger inodes@[j]]
                    0 <= j < inodes@.len() && inodes@[j]@ == inode;
                assert(inodes@[j] == inode);
                assert(snapshot@[j].0 == inode);
            }
        }
        snapshot
    }

    /// Renews the references whose generation is still the same.
    pub fn renew_filesystem_inode_reference_leases(
        &mut self,
        references: &Vec<(u64, u64)>,
        lease_millis: u64,
        now: u64,
    )
        ensures
            final(self)@ == old(self)@.renewed(
                references@,
                later(now, millis_to_nanos(lease_millis)),
            ),
    {
        let ghost before = self@;
        let until: u64 = moment_after(now, nanos_of_millis(lease_millis));
        let mut i: usize = 0;
        assert(references@.take(0) =~= Seq::empty());
        while i < references.len()
            invariant
                i <= references@.len(),
                self@ == before.renewed(references@.take(i as int), until),
            decreases references.len() - i,
        {
            proof {
                assert(references@.take(i + 1).drop_last() =~= references@.take(i as int));
            }
            let (inode, generation): (u64, u64) = references[i];
            if let Some(reference) = self.references.get(&inode) {
                let reference: LocalFilesystemInodeReference = *reference;
                if reference.generation == generation {
                    self.references.insert(
                        inode,
                        LocalFilesystemInodeReference { lease_until: until, ..reference },
                    );
                }
            }
            i = i + 1;
        }
        assert(references@.take(i as int) =~= references@);
    }

    /// Whether the node may use the inode.
    pub fn has_live_filesystem_inode_reference(&self, inode: u64, now: u64) -> (live: bool)
        ensures
            live == self@.has_live(inode, now),
    {
        inode == ROOT_INODE || match self.references.get(&inode) {
            Some(reference) => reference.lease_until > now,
            None => false,
        }
    }

    /// Notes that an inode lost its last name.
    pub fn mark_filesystem_inode_orphan(&mut self, inode: u64)
        ensures
            final(self)@ == old(self)@.orphaned(inode),
    {
        if let Some(reference) = self.references.get(&inode) {
            let reference: LocalFilesystemInodeReference = *reference;
            self.references.insert(
                inode,
                LocalFilesystemInodeReference { eager_meta_release: true, ..reference },
            );
        }
    }

    /// Releases some lookups. The last release returns the generation of the reference and
    /// whether the metadata service is to be told at once.
    pub fn release_filesystem_inode_reference_local(&mut self, inode: u64, count: u64) -> (last:
        Option<(u64, bool)>)
        ensures
            final(self)@ == old(self)@.released(inode, count),
            last == old(self)@.given_back(inode, count),
    {
        if inode == ROOT_INODE || count == 0 {
            return None;
        }
        let reference: LocalFilesystemInodeReference = match self.references.get(&inode) {
            Some(reference) => *reference,
            None => return None,
        };
        if reference.count > count {
            self.references.insert(
                inode,
                LocalFilesystemInodeReference { count: reference.count - count, ..reference },
            );
            return None;
        }
        let _ = self.references.remove(&inode);
        Some((reference.generation, reference.eager_meta_release))
    }
}

} // verus!
