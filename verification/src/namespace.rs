//! What a change of names means for what the node remembers of files and directories: which grants
//! are taken back, which entries and bindings are put in, and in which order. Old grants always go
//! before new ones come.
use crate::bytes::copy_bytes;
#[allow(unused_imports)]
use crate::bytes::{lemma_views_push, lemma_views_take, views};
use crate::error::WorkerError;
#[allow(unused_imports)]
use crate::inode_reference::ReferencesView;
use crate::inode_reference::ROOT_INODE;
use crate::node::NodeState;
#[allow(unused_imports)]
use crate::node::NodeView;
use vstd::prelude::*;

verus! {

/// A directory that has changed, with the grant that holds from then on.
#[derive(Clone, Copy, Debug, PartialEq, Eq, Structural)]
pub struct DirectoryVersion {
    pub inode: u64,
    pub revision: u64,
    pub grant_generation: u64,
}

/// An inode that has changed, with the grant that holds from then on.
#[derive(Clone, Copy, Debug, PartialEq, Eq, Structural)]
pub struct InodeVersion {
    pub inode: u64,
    pub grant_generation: u64,
}

/// A name that has gone from a directory.
#[derive(Debug, PartialEq, Eq)]
pub struct RemovedDentry {
    pub parent: u64,
    pub name: Vec<u8>,
}

impl View for RemovedDentry {
    type V = (u64, Seq<u8>);

    open spec fn view(&self) -> (u64, Seq<u8>) {
        (self.parent, self.name@)
    }
}

/// Which of the entries of an answer is meant.
#[derive(Clone, Copy, Debug, PartialEq, Eq, Structural)]
pub enum EntrySlot {
    /// The entry that was asked for.
    Main,
    /// One of those that came along.
    Prefetched(usize),
    /// One of the directories that came along.
    Refreshed(usize),
}

/// A change of what the node remembers of files and directories.
#[derive(Debug, PartialEq, Eq)]
pub enum NamespaceAction {
    /// Forgets every binding and every directory.
    ForgetAll,
    /// Takes the grants of an inode's binding back, up to a generation.
    RevokeBinding { inode: u64, generation: u64 },
    /// Brings what is remembered of a directory up to a revision, without some names.
    ApplyMutation { directory: u64, revision: u64, generation: u64, removed: Vec<Vec<u8>> },
    /// Takes the grants of what is remembered of a directory back, up to a generation, and forgets
    /// what is older than a revision.
    RevokeDirectory { directory: u64, generation: u64, minimum_revision: u64 },
    /// Remembers that a name is there.
    InsertDentry(EntrySlot),
    /// Remembers the binding of an inode.
    InsertBinding(EntrySlot),
}

/// A change of what the node remembers, as a value.
#[verifier::ext_equal]
pub enum ActionView {
    ForgetAll,
    RevokeBinding { inode: u64, generation: u64 },
    ApplyMutation { directory: u64, revision: u64, generation: u64, removed: Seq<Seq<u8>> },
    RevokeDirectory { directory: u64, generation: u64, minimum_revision: u64 },
    InsertDentry(EntrySlot),
    InsertBinding(EntrySlot),
}

impl View for NamespaceAction {
    type V = ActionView;

    open spec fn view(&self) -> ActionView {
        match *self {
            NamespaceAction::ForgetAll => ActionView::ForgetAll,
            NamespaceAction::RevokeBinding { inode, generation } => ActionView::RevokeBinding {
                inode,
                generation,
            },
            NamespaceAction::ApplyMutation { directory, revision, generation, removed } =>
                ActionView::ApplyMutation {
                directory,
                revision,
                generation,
                removed: views(removed@),
            },
            NamespaceAction::RevokeDirectory { directory, generation, minimum_revision } =>
                ActionView::RevokeDirectory { directory, generation, minimum_revision },
            NamespaceAction::InsertDentry(slot) => ActionView::InsertDentry(slot),
            NamespaceAction::InsertBinding(slot) => ActionView::InsertBinding(slot),
        }
    }
}

/// The names that have gone from a directory.
pub open spec fn removed_from(removed: Seq<(u64, Seq<u8>)>, directory: u64) -> Seq<Seq<u8>>
    decreases removed.len(),
{
    if removed.len() == 0 {
        Seq::empty()
    } else if removed.last().0 == directory {
        removed_from(removed.drop_last(), directory).push(removed.last().1)
    } else {
        removed_from(removed.drop_last(), directory)
    }
}

/// What follows from changed directories: each loses its old grant, and then its names.
pub open spec fn directory_actions(
    directories: Seq<DirectoryVersion>,
    removed: Seq<(u64, Seq<u8>)>,
) -> Seq<ActionView>
    decreases directories.len(),
{
    if directories.len() == 0 {
        Seq::empty()
    } else {
        let directory = directories.last();
        directory_actions(directories.drop_last(), removed).push(
            ActionView::RevokeBinding {
                inode: directory.inode,
                generation: directory.grant_generation,
            },
        ).push(
            ActionView::ApplyMutation {
                directory: directory.inode,
                revision: directory.revision,
                generation: directory.grant_generation,
                removed: removed_from(removed, directory.inode),
            },
        )
    }
}

/// What follows from changed inodes: each loses its old grant.
pub open spec fn inode_actions(inodes: Seq<InodeVersion>) -> Seq<ActionView> {
    inodes.map_values(
        |inode: InodeVersion|
            ActionView::RevokeBinding { inode: inode.inode, generation: inode.grant_generation },
    )
}

/// What follows from directories that came along: each is remembered.
pub open spec fn refresh_actions(count: nat) -> Seq<ActionView> {
    Seq::new(count, |i: int| ActionView::InsertBinding(EntrySlot::Refreshed(i as usize)))
}

/// What follows from a change that this node made: old grants go first, and then come the bindings
/// that the metadata service sent along.
pub open spec fn mutation_actions(
    directories: Seq<DirectoryVersion>,
    inodes: Seq<InodeVersion>,
    removed: Seq<(u64, Seq<u8>)>,
    refreshed: nat,
) -> Seq<ActionView> {
    directory_actions(directories, removed) + inode_actions(inodes) + refresh_actions(refreshed)
}

/// What follows when the stream of the metadata service's changes breaks or comes back: grants
/// that were given before may have been taken back unheard.
pub open spec fn watch_actions(watch_connected: Option<bool>) -> Seq<ActionView> {
    match watch_connected {
        Some(_) => seq![ActionView::ForgetAll],
        None => Seq::empty(),
    }
}

/// What follows when the metadata service takes a grant back.
pub open spec fn revocation_actions(
    inode: u64,
    through_generation: u64,
    minimum_inode_revision: u64,
) -> Seq<ActionView> {
    seq![
        ActionView::RevokeBinding { inode, generation: through_generation },
        ActionView::RevokeDirectory {
            directory: inode,
            generation: through_generation,
            minimum_revision: minimum_inode_revision,
        },
    ]
}

/// An entry that came along with another, with the reference that was reserved for it.
#[derive(Clone, Copy, Debug, PartialEq, Eq, Structural)]
pub struct PrefetchedEntry {
    pub inode: u64,
    pub reference_generation: u64,
    pub reference_lease_millis: u64,
}

/// An entry that the metadata service resolved.
#[derive(Debug, PartialEq, Eq)]
pub struct ResolvedEntry {
    pub parent: u64,
    pub name: Vec<u8>,
    pub directory_revision: u64,
    pub grant_generation: u64,
    pub inode: u64,
    pub reference_generation: u64,
    pub reference_lease_millis: u64,
    /// The entries that came along.
    pub prefetched: Vec<PrefetchedEntry>,
    /// How many directories came along.
    pub refreshed: usize,
}

/// An entry that the metadata service resolved, as a value.
#[verifier::ext_equal]
pub struct EntryView {
    pub parent: u64,
    pub name: Seq<u8>,
    pub directory_revision: u64,
    pub grant_generation: u64,
    pub inode: u64,
    pub reference_generation: u64,
    pub reference_lease_millis: u64,
    pub prefetched: Seq<PrefetchedEntry>,
    pub refreshed: usize,
}

impl View for ResolvedEntry {
    type V = EntryView;

    open spec fn view(&self) -> EntryView {
        EntryView {
            parent: self.parent,
            name: self.name@,
            directory_revision: self.directory_revision,
            grant_generation: self.grant_generation,
            inode: self.inode,
            reference_generation: self.reference_generation,
            reference_lease_millis: self.reference_lease_millis,
            prefetched: self.prefetched@,
            refreshed: self.refreshed,
        }
    }
}

/// What follows from the entries that came along.
pub open spec fn prefetch_actions(count: nat) -> Seq<ActionView>
    decreases count,
{
    if count == 0 {
        Seq::empty()
    } else {
        prefetch_actions((count - 1) as nat).push(
            ActionView::InsertDentry(EntrySlot::Prefetched((count - 1) as usize)),
        ).push(ActionView::InsertBinding(EntrySlot::Prefetched((count - 1) as usize)))
    }
}

/// What follows from an entry. Where this node made it, what was remembered of the directory is
/// brought up to date first.
pub open spec fn entry_actions(entry: EntryView, made_here: bool) -> Seq<ActionView> {
    let changed = if made_here {
        seq![
            ActionView::RevokeBinding { inode: entry.parent, generation: entry.grant_generation },
            ActionView::ApplyMutation {
                directory: entry.parent,
                revision: entry.directory_revision,
                generation: entry.grant_generation,
                removed: seq![entry.name],
            },
        ]
    } else {
        Seq::empty()
    };
    changed + seq![
        ActionView::InsertDentry(EntrySlot::Main),
        ActionView::InsertBinding(EntrySlot::Main),
    ] + prefetch_actions(entry.prefetched.len()) + refresh_actions(entry.refreshed as nat)
}

/// The references after those of the entries that came along were reserved.
pub open spec fn reserved_all(
    references: ReferencesView,
    entries: Seq<PrefetchedEntry>,
    now: u64,
) -> ReferencesView
    decreases entries.len(),
{
    if entries.len() == 0 {
        references
    } else {
        let entry = entries.last();
        reserved_all(references, entries.drop_last(), now).reserved(
            entry.inode,
            entry.reference_generation,
            entry.reference_lease_millis,
            now,
        )
    }
}

/// Whether an answer lacks the reference that an entry comes with. The root has none.
pub open spec fn lacks_reference(inode: u64, generation: u64, lease_millis: u64) -> bool {
    inode != ROOT_INODE && (generation == 0 || lease_millis == 0)
}

/// Fails for an entry that came without its reference.
pub fn check_resolved_entry(entry: &ResolvedEntry) -> (checked: Result<(), WorkerError>)
    ensures
        match checked {
            Ok(_) => !lacks_reference(
                entry.inode,
                entry.reference_generation,
                entry.reference_lease_millis,
            ),
            Err(error) => error is MetadataUnavailable && lacks_reference(
                entry.inode,
                entry.reference_generation,
                entry.reference_lease_millis,
            ),
        },
{
    if entry.inode != ROOT_INODE && (entry.reference_generation == 0
        || entry.reference_lease_millis == 0) {
        return Err(WorkerError::MetadataUnavailable);
    }
    Ok(())
}

/// An entry has to come with a reference that lasts, unless it is the root's.
pub proof fn only_the_root_comes_without_a_reference(
    inode: u64,
    generation: u64,
    lease_millis: u64,
)
    ensures
        inode == 1 ==> !lacks_reference(inode, generation, lease_millis),
        inode != 1 && generation > 0 && lease_millis > 0 ==> !lacks_reference(
            inode,
            generation,
            lease_millis,
        ),
        inode != 1 ==> lacks_reference(inode, 0, lease_millis) && lacks_reference(
            inode,
            generation,
            0,
        ),
{
}

/// No binding is put in before the last old grant has been taken back.
pub proof fn old_grants_go_before_new_ones_come(
    directories: Seq<DirectoryVersion>,
    inodes: Seq<InodeVersion>,
    removed: Seq<(u64, Seq<u8>)>,
    refreshed: nat,
    revoke: int,
    insert: int,
)
    requires
        0 <= revoke < mutation_actions(directories, inodes, removed, refreshed).len(),
        0 <= insert < mutation_actions(directories, inodes, removed, refreshed).len(),
        mutation_actions(directories, inodes, removed, refreshed)[revoke] is RevokeBinding,
        mutation_actions(directories, inodes, removed, refreshed)[insert] is InsertBinding,
    ensures
        revoke < insert,
{
    lemma_directory_actions(directories, removed);
}

/// A change that this node made takes back the old grant of every directory and of every inode that
/// changed, takes out of each directory exactly the names that have gone from it, and puts in every
/// directory that came along. It does nothing else.
pub proof fn a_change_is_carried_out_on_all_that_it_names(
    directories: Seq<DirectoryVersion>,
    inodes: Seq<InodeVersion>,
    removed: Seq<(u64, Seq<u8>)>,
    refreshed: nat,
    directory: int,
    inode: int,
    came: int,
    name: Seq<u8>,
)
    requires
        0 <= directory < directories.len(),
        refreshed <= usize::MAX,
    ensures
        ({
            let actions = mutation_actions(directories, inodes, removed, refreshed);
            let changed = directories[directory];
            &&& actions.len() == 2 * directories.len() + inodes.len() + refreshed
            &&& actions[2 * directory] == (ActionView::RevokeBinding {
                inode: changed.inode,
                generation: changed.grant_generation,
            })
            &&& actions[2 * directory + 1] is ApplyMutation
            &&& actions[2 * directory + 1]->ApplyMutation_directory == changed.inode
            &&& actions[2 * directory + 1]->revision == changed.revision
            &&& actions[2 * directory + 1]->ApplyMutation_generation == changed.grant_generation
            &&& actions[2 * directory + 1]->removed.contains(name) <==> removed.contains(
                (changed.inode, name),
            )
            &&& 0 <= inode < inodes.len() ==> actions[2 * directories.len() + inode] == (
            ActionView::RevokeBinding {
                inode: inodes[inode].inode,
                generation: inodes[inode].grant_generation,
            })
            &&& 0 <= came < refreshed ==> actions[2 * directories.len() + inodes.len() + came]
                == ActionView::InsertBinding(EntrySlot::Refreshed(came as usize))
        }),
{
    lemma_directory_at(directories, removed, directory);
    lemma_removed_from(removed, directories[directory].inode, name);
}

proof fn lemma_directory_at(
    directories: Seq<DirectoryVersion>,
    removed: Seq<(u64, Seq<u8>)>,
    at: int,
)
    requires
        0 <= at < directories.len(),
    ensures
        directory_actions(directories, removed).len() == 2 * directories.len(),
        directory_actions(directories, removed)[2 * at] == (ActionView::RevokeBinding {
            inode: directories[at].inode,
            generation: directories[at].grant_generation,
        }),
        directory_actions(directories, removed)[2 * at + 1] == (ActionView::ApplyMutation {
            directory: directories[at].inode,
            revision: directories[at].revision,
            generation: directories[at].grant_generation,
            removed: removed_from(removed, directories[at].inode),
        }),
    decreases directories.len(),
{
    let rest = directories.drop_last();
    let earlier = directory_actions(rest, removed);
    let all = directory_actions(directories, removed);
    if rest.len() > 0 {
        lemma_directory_at(rest, removed, if at < rest.len() { at } else { 0 });
    } else {
        assert(earlier.len() == 0);
    }
    if at < rest.len() {
        assert(rest[at] == directories[at]);
        assert(all[2 * at] == earlier[2 * at]);
        assert(all[2 * at + 1] == earlier[2 * at + 1]);
    }
}

proof fn lemma_removed_from(removed: Seq<(u64, Seq<u8>)>, directory: u64, name: Seq<u8>)
    ensures
        removed_from(removed, directory).contains(name) <==> removed.contains((directory, name)),
    decreases removed.len(),
{
    if removed.len() > 0 {
        let rest = removed.drop_last();
        let last = removed.last();
        let names = removed_from(removed, directory);
        let earlier = removed_from(rest, directory);
        lemma_removed_from(rest, directory, name);
        assert(removed.contains((directory, name)) <==> rest.contains((directory, name)) || last
            == (directory, name)) by {
            if rest.contains((directory, name)) {
                let i = choose|i: int| 0 <= i < rest.len() && rest[i] == (directory, name);
                assert(removed[i] == (directory, name));
            }
            assert(removed[removed.len() - 1] == last);
            if removed.contains((directory, name)) && last != (directory, name) {
                let i = choose|i: int| 0 <= i < removed.len() && removed[i] == (directory, name);
                assert(rest[i] == (directory, name));
            }
        }
        if last.0 == directory {
            assert(names == earlier.push(last.1));
            if earlier.contains(name) {
                let i = choose|i: int| 0 <= i < earlier.len() && earlier[i] == name;
                assert(names[i] == name);
            }
            assert(names[earlier.len() as int] == last.1);
            if names.contains(name) && last.1 != name {
                let i = choose|i: int| 0 <= i < names.len() && names[i] == name;
                assert(earlier[i] == name);
            }
        }
    }
}

/// When the stream of changes breaks or comes back, everything is forgotten, and nothing is forgotten
/// otherwise. When a grant is taken back, the inode loses what was granted up to that generation, as
/// an inode and as a directory, down to the revision that was named.
pub proof fn a_lost_grant_is_forgotten(
    watch_connected: Option<bool>,
    inode: u64,
    generation: u64,
    minimum_revision: u64,
)
    ensures
        watch_connected is Some ==> watch_actions(watch_connected).contains(ActionView::ForgetAll),
        watch_connected is None ==> watch_actions(watch_connected).len() == 0,
        ({
            let actions = revocation_actions(inode, generation, minimum_revision);
            &&& actions.len() == 2
            &&& actions[0] == (ActionView::RevokeBinding { inode, generation })
            &&& actions[1] == (ActionView::RevokeDirectory {
                directory: inode,
                generation,
                minimum_revision,
            })
        }),
{
    assert(watch_connected is Some ==> watch_actions(watch_connected)[0]
        == ActionView::ForgetAll);
}

/// A resolved entry is remembered with its binding, and so is every entry and every directory that
/// came along. Where this node made the entry, the directory first loses its old grant and the name.
pub proof fn an_entry_is_remembered_with_all_that_came_along(
    entry: EntryView,
    made_here: bool,
    came: int,
    fresh: int,
)
    ensures
        ({
            let actions = entry_actions(entry, made_here);
            let first: int = if made_here {
                2
            } else {
                0
            };
            let count = entry.prefetched.len();
            &&& actions.len() == first + 2 + 2 * count + entry.refreshed
            &&& made_here ==> actions[0] == (ActionView::RevokeBinding {
                inode: entry.parent,
                generation: entry.grant_generation,
            }) && actions[1] == (ActionView::ApplyMutation {
                directory: entry.parent,
                revision: entry.directory_revision,
                generation: entry.grant_generation,
                removed: seq![entry.name],
            })
            &&& actions[first] == ActionView::InsertDentry(EntrySlot::Main)
            &&& actions[first + 1] == ActionView::InsertBinding(EntrySlot::Main)
            &&& 0 <= came < count <= usize::MAX ==> actions[first + 2 + 2 * came]
                == ActionView::InsertDentry(EntrySlot::Prefetched(came as usize)) && actions[first
                + 3 + 2 * came] == ActionView::InsertBinding(EntrySlot::Prefetched(came as usize))
            &&& 0 <= fresh < entry.refreshed ==> actions[first + 2 + 2 * count + fresh]
                == ActionView::InsertBinding(EntrySlot::Refreshed(fresh as usize))
        }),
{
    lemma_prefetch_actions(entry.prefetched.len(), came);
}

proof fn lemma_prefetch_actions(count: nat, at: int)
    ensures
        prefetch_actions(count).len() == 2 * count,
        0 <= at < count <= usize::MAX ==> prefetch_actions(count)[2 * at]
            == ActionView::InsertDentry(EntrySlot::Prefetched(at as usize)) && prefetch_actions(
            count,
        )[2 * at + 1] == ActionView::InsertBinding(EntrySlot::Prefetched(at as usize)),
    decreases count,
{
    if count > 0 {
        let before = (count - 1) as nat;
        lemma_prefetch_actions(before, at);
        if 0 <= at < before {
            assert(prefetch_actions(count)[2 * at] == prefetch_actions(before)[2 * at]);
            assert(prefetch_actions(count)[2 * at + 1] == prefetch_actions(before)[2 * at + 1]);
        }
    }
}

/// A resolved entry counts as one lookup of its inode. What came along counts as none: it is kept, but
/// nobody holds it yet, and what somebody holds stays as it is.
pub proof fn only_the_entry_itself_is_held(
    references: ReferencesView,
    entry: EntryView,
    now: u64,
    inode: u64,
)
    requires
        references.held(inode) < u64::MAX,
    ensures
        ({
            let reserved = reserved_all(references, entry.prefetched, now);
            let next = reserved.installed(
                entry.inode,
                entry.reference_generation,
                entry.reference_lease_millis,
                now,
            );
            &&& reserved.held(inode) == references.held(inode)
            &&& references.held(inode) > 0 ==> reserved.references[inode]
                == references.references[inode]
            &&& inode == entry.inode && inode != 1 && entry.reference_generation != 0
                ==> next.held(inode) == references.held(inode) + 1
            &&& inode != entry.inode ==> next.held(inode) == references.held(inode)
        }),
{
    lemma_reserved_all(references, entry.prefetched, now, inode);
}

proof fn lemma_reserved_all(
    references: ReferencesView,
    entries: Seq<PrefetchedEntry>,
    now: u64,
    inode: u64,
)
    ensures
        reserved_all(references, entries, now).held(inode) == references.held(inode),
        references.held(inode) > 0 ==> reserved_all(references, entries, now).references[inode]
            == references.references[inode],
    decreases entries.len(),
{
    if entries.len() > 0 {
        lemma_reserved_all(references, entries.drop_last(), now, inode);
    }
}

proof fn lemma_directory_actions(directories: Seq<DirectoryVersion>, removed: Seq<(u64, Seq<u8>)>)
    ensures
        ({
            let actions = directory_actions(directories, removed);
            forall|i: int|
                #![trigger actions[i]]
                0 <= i < actions.len() ==> !(actions[i] is InsertBinding)
        }),
    decreases directories.len(),
{
    if directories.len() > 0 {
        lemma_directory_actions(directories.drop_last(), removed);
        let earlier = directory_actions(directories.drop_last(), removed);
        let actions = directory_actions(directories, removed);
        assert forall|i: int| #![trigger actions[i]] 0 <= i < actions.len() implies !(actions[i]
            is InsertBinding) by {
            if i < earlier.len() {
                assert(actions[i] == earlier[i]);
            }
        }
    }
}

fn names_removed_from(removed: &Vec<RemovedDentry>, directory: u64) -> (names: Vec<Vec<u8>>)
    ensures
        views(names@) == removed_from(views(removed@), directory),
{
    let ghost all = views(removed@);
    let mut names: Vec<Vec<u8>> = Vec::new();
    let mut i: usize = 0;
    assert(all.take(0) =~= Seq::empty());
    assert(views(names@) =~= Seq::empty());
    while i < removed.len()
        invariant
            i <= removed@.len(),
            all == views(removed@),
            views(names@) == removed_from(all.take(i as int), directory),
        decreases removed.len() - i,
    {
        let ghost so_far = names@;
        proof {
            lemma_views_take(removed@, i as int);
        }
        if removed[i].parent == directory {
            names.push(copy_bytes(&removed[i].name));
            proof {
                lemma_views_push(so_far, names@.last());
            }
        }
        i = i + 1;
    }
    assert(all.take(i as int) =~= all);
    names
}

fn push_refreshes(actions: &mut Vec<NamespaceAction>, count: usize)
    ensures
        views(final(actions)@) == views(old(actions)@) + refresh_actions(count as nat),
{
    let ghost before = views(actions@);
    let mut i: usize = 0;
    assert(views(actions@) =~= before + refresh_actions(0));
    while i < count
        invariant
            i <= count,
            views(actions@) =~= before + refresh_actions(i as nat),
        decreases count - i,
    {
        let ghost so_far = actions@;
        actions.push(NamespaceAction::InsertBinding(EntrySlot::Refreshed(i)));
        proof {
            lemma_views_push(so_far, actions@.last());
        }
        i = i + 1;
    }
}

/// What follows from a change that this node made.
pub fn plan_local_mutation(
    changed_directories: &Vec<DirectoryVersion>,
    changed_inodes: &Vec<InodeVersion>,
    removed_dentries: &Vec<RemovedDentry>,
    refreshed: usize,
) -> (actions: Vec<NamespaceAction>)
    ensures
        views(actions@) == mutation_actions(
            changed_directories@,
            changed_inodes@,
            views(removed_dentries@),
            refreshed as nat,
        ),
{
    let ghost removed = views(removed_dentries@);
    let ghost directories = changed_directories@;
    let mut actions: Vec<NamespaceAction> = Vec::new();
    let mut i: usize = 0;
    assert(directories.take(0) =~= Seq::empty());
    assert(views(actions@) =~= Seq::empty());
    while i < changed_directories.len()
        invariant
            i <= changed_directories@.len(),
            directories == changed_directories@,
            removed == views(removed_dentries@),
            views(actions@) == directory_actions(directories.take(i as int), removed),
        decreases changed_directories.len() - i,
    {
        let ghost so_far = actions@;
        let directory: DirectoryVersion = changed_directories[i];
        actions.push(
            NamespaceAction::RevokeBinding {
                inode: directory.inode,
                generation: directory.grant_generation,
            },
        );
        let ghost middle = actions@;
        actions.push(
            NamespaceAction::ApplyMutation {
                directory: directory.inode,
                revision: directory.revision,
                generation: directory.grant_generation,
                removed: names_removed_from(removed_dentries, directory.inode),
            },
        );
        proof {
            lemma_views_push(so_far, middle.last());
            lemma_views_push(middle, actions@.last());
            assert(directories.take(i + 1).drop_last() =~= directories.take(i as int));
            assert(middle =~= so_far.push(middle.last()));
        }
        i = i + 1;
    }
    assert(directories.take(i as int) =~= directories);
    let ghost first = views(actions@);
    let mut k: usize = 0;
    assert(views(actions@) =~= first + inode_actions(changed_inodes@.take(0)));
    while k < changed_inodes.len()
        invariant
            k <= changed_inodes@.len(),
            views(actions@) =~= first + inode_actions(changed_inodes@.take(k as int)),
        decreases changed_inodes.len() - k,
    {
        let ghost so_far = actions@;
        actions.push(
            NamespaceAction::RevokeBinding {
                inode: changed_inodes[k].inode,
                generation: changed_inodes[k].grant_generation,
            },
        );
        proof {
            lemma_views_push(so_far, actions@.last());
        }
        k = k + 1;
    }
    assert(changed_inodes@.take(k as int) =~= changed_inodes@);
    push_refreshes(&mut actions, refreshed);
    actions
}

/// What follows when the metadata service takes a grant back: the binding goes, and what is
/// remembered of the directory.
pub fn plan_revocation(inode: u64, through_generation: u64, minimum_inode_revision: u64) -> (actions:
    Vec<NamespaceAction>)
    ensures
        views(actions@) == revocation_actions(inode, through_generation, minimum_inode_revision),
{
    let mut actions: Vec<NamespaceAction> = Vec::new();
    actions.push(NamespaceAction::RevokeBinding { inode, generation: through_generation });
    actions.push(
        NamespaceAction::RevokeDirectory {
            directory: inode,
            generation: through_generation,
            minimum_revision: minimum_inode_revision,
        },
    );
    assert(views(actions@) =~= revocation_actions(
        inode,
        through_generation,
        minimum_inode_revision,
    ));
    actions
}

/// What follows from an entry.
pub fn plan_resolved_entry(entry: &ResolvedEntry, made_here: bool) -> (actions: Vec<NamespaceAction>)
    ensures
        views(actions@) == entry_actions(entry@, made_here),
{
    let mut actions: Vec<NamespaceAction> = Vec::new();
    if made_here {
        let mut names: Vec<Vec<u8>> = Vec::new();
        names.push(copy_bytes(&entry.name));
        assert(views(names@) =~= seq![entry.name@]);
        actions.push(
            NamespaceAction::RevokeBinding {
                inode: entry.parent,
                generation: entry.grant_generation,
            },
        );
        actions.push(
            NamespaceAction::ApplyMutation {
                directory: entry.parent,
                revision: entry.directory_revision,
                generation: entry.grant_generation,
                removed: names,
            },
        );
    }
    let ghost changed = views(actions@);
    actions.push(NamespaceAction::InsertDentry(EntrySlot::Main));
    actions.push(NamespaceAction::InsertBinding(EntrySlot::Main));
    let ghost main = seq![
        ActionView::InsertDentry(EntrySlot::Main),
        ActionView::InsertBinding(EntrySlot::Main),
    ];
    proof {
        if made_here {
            assert(changed =~= seq![
                ActionView::RevokeBinding {
                    inode: entry.parent,
                    generation: entry.grant_generation,
                },
                ActionView::ApplyMutation {
                    directory: entry.parent,
                    revision: entry.directory_revision,
                    generation: entry.grant_generation,
                    removed: seq![entry.name@],
                },
            ]);
        } else {
            assert(changed =~= Seq::empty());
        }
        assert(views(actions@) =~= changed + main + prefetch_actions(0));
    }
    let count: usize = entry.prefetched.len();
    let mut i: usize = 0;
    while i < count
        invariant
            i <= count,
            views(actions@) =~= changed + main + prefetch_actions(i as nat),
        decreases count - i,
    {
        let ghost so_far = actions@;
        actions.push(NamespaceAction::InsertDentry(EntrySlot::Prefetched(i)));
        let ghost middle = actions@;
        actions.push(NamespaceAction::InsertBinding(EntrySlot::Prefetched(i)));
        proof {
            lemma_views_push(so_far, middle.last());
            lemma_views_push(middle, actions@.last());
        }
        i = i + 1;
    }
    push_refreshes(&mut actions, entry.refreshed);
    actions
}

impl NodeState {
    /// Takes an entry that the metadata service resolved: its reference, and those of the entries
    /// that came along. Returns what follows for what the node remembers of files and directories.
    pub fn install_resolved_entry(&mut self, entry: &ResolvedEntry, made_here: bool, now: u64) -> (
    actions: Vec<NamespaceAction>)
        requires
            old(self)@.wf(),
        ensures
            final(self)@.wf(),
            final(self)@ == (NodeView {
                references: reserved_all(
                    old(self)@.references,
                    entry@.prefetched,
                    now,
                ).installed(
                    entry@.inode,
                    entry@.reference_generation,
                    entry@.reference_lease_millis,
                    now,
                ),
                ..old(self)@
            }),
            views(actions@) == entry_actions(entry@, made_here),
    {
        let ghost before = self@;
        let ghost entries = entry.prefetched@;
        let mut i: usize = 0;
        assert(entries.take(0) =~= Seq::empty());
        while i < entry.prefetched.len()
            invariant
                i <= entry.prefetched@.len(),
                entries == entry.prefetched@,
                self@.wf(),
                self@ == (NodeView {
                    references: reserved_all(before.references, entries.take(i as int), now),
                    ..before
                }),
            decreases entry.prefetched.len() - i,
        {
            assert(entries.take(i + 1).drop_last() =~= entries.take(i as int));
            let prefetched: PrefetchedEntry = entry.prefetched[i];
            self.references.install_filesystem_inode_reference_reservation(
                prefetched.inode,
                prefetched.reference_generation,
                prefetched.reference_lease_millis,
                now,
            );
            i = i + 1;
        }
        assert(entries.take(i as int) =~= entries);
        self.references.install_filesystem_inode_reference(
            entry.inode,
            entry.reference_generation,
            entry.reference_lease_millis,
            now,
        );
        plan_resolved_entry(entry, made_here)
    }
}

} // verus!
