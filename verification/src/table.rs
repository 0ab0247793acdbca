//! A map with keys that are compared by their value.
use crate::bytes::{copy_bytes, same_bytes};
use vstd::prelude::*;

verus! {

/// A key of a table.
pub trait Key: View + Sized {
    /// Whether two keys are the same.
    fn same(&self, other: &Self) -> (same: bool)
        ensures
            same == (self@ == other@),
    ;

    /// An equal key.
    fn copy_key(&self) -> (copy: Self)
        ensures
            copy@ == self@,
    ;
}

impl Key for u64 {
    fn same(&self, other: &Self) -> (same: bool) {
        *self == *other
    }

    fn copy_key(&self) -> (copy: Self) {
        *self
    }
}

impl Key for Vec<u8> {
    fn same(&self, other: &Self) -> (same: bool) {
        same_bytes(self, other)
    }

    fn copy_key(&self) -> (copy: Self) {
        copy_bytes(self)
    }
}

/// A map that holds each key once.
pub struct Table<K: Key, V: View> {
    entries: Vec<(K, V)>,
}

/// Whether no two entries have the same key.
spec fn keys_differ<K: Key, V: View>(entries: Seq<(K, V)>) -> bool {
    forall|i: int, j: int|
        #![trigger entries[i], entries[j]]
        0 <= i < j < entries.len() ==> entries[i].0@ != entries[j].0@
}

/// The map that the entries make.
spec fn map_of<K: Key, V: View>(entries: Seq<(K, V)>) -> Map<K::V, V::V>
    decreases entries.len(),
{
    if entries.len() == 0 {
        Map::empty()
    } else {
        map_of(entries.drop_last()).insert(entries.last().0@, entries.last().1@)
    }
}

proof fn lemma_map_of<K: Key, V: View>(entries: Seq<(K, V)>)
    requires
        keys_differ(entries),
    ensures
        map_of(entries).dom().finite(),
        map_of(entries).len() == entries.len(),
        forall|i: int|
            #![trigger entries[i]]
            0 <= i < entries.len() ==> map_of(entries).contains_key(entries[i].0@) && map_of(
                entries,
            )[entries[i].0@] == entries[i].1@,
        forall|key: K::V|
            #![trigger map_of(entries).contains_key(key)]
            map_of(entries).contains_key(key) ==> exists|i: int|
                #![trigger entries[i]]
                0 <= i < entries.len() && entries[i].0@ == key,
    decreases entries.len(),
{
    if entries.len() > 0 {
        let rest = entries.drop_last();
        let last = entries.last();
        assert(keys_differ(rest)) by {
            assert forall|i: int, j: int|
                #![trigger rest[i], rest[j]]
                0 <= i < j < rest.len() implies rest[i].0@ != rest[j].0@ by {
                assert(entries[i].0@ != entries[j].0@);
            }
        }
        lemma_map_of(rest);
        assert(!map_of(rest).contains_key(last.0@)) by {
            if map_of(rest).contains_key(last.0@) {
                let i = choose|i: int|
                    #![trigger rest[i]]
                    0 <= i < rest.len() && rest[i].0@ == last.0@;
                assert(entries[i].0@ != entries[entries.len() - 1].0@);
            }
        }
        assert forall|i: int|
            #![trigger entries[i]]
            0 <= i < entries.len() implies map_of(entries).contains_key(entries[i].0@) && map_of(
            entries,
        )[entries[i].0@] == entries[i].1@ by {
            if i < rest.len() {
                assert(rest[i] == entries[i]);
                assert(entries[i].0@ != entries[entries.len() - 1].0@);
            }
        }
        assert forall|key: K::V|
            #![trigger map_of(entries).contains_key(key)]
            map_of(entries).contains_key(key) implies exists|i: int|
            #![trigger entries[i]]
            0 <= i < entries.len() && entries[i].0@ == key by {
            if key == last.0@ {
                assert(entries[entries.len() - 1].0@ == key);
            } else {
                assert(map_of(rest).contains_key(key));
                let i = choose|i: int|
                    #![trigger rest[i]]
                    0 <= i < rest.len() && rest[i].0@ == key;
                assert(entries[i].0@ == key);
            }
        }
    }
}

/// Entries with the same keys and values make the same map, whatever their order.
proof fn lemma_same_map<K: Key, V: View>(left: Seq<(K, V)>, right: Map<K::V, V::V>)
    requires
        keys_differ(left),
        forall|i: int|
            #![trigger left[i]]
            0 <= i < left.len() ==> right.contains_key(left[i].0@) && right[left[i].0@]
                == left[i].1@,
        forall|key: K::V|
            #![trigger right.contains_key(key)]
            right.contains_key(key) ==> exists|i: int|
                #![trigger left[i]]
                0 <= i < left.len() && left[i].0@ == key,
    ensures
        map_of(left) == right,
{
    lemma_map_of(left);
    assert(map_of(left) =~= right) by {
        assert forall|key: K::V| map_of(left).contains_key(key) == right.contains_key(key) by {
            if right.contains_key(key) {
                let i = choose|i: int|
                    #![trigger left[i]]
                    0 <= i < left.len() && left[i].0@ == key;
                assert(left[i].0@ == key);
            }
        }
        assert forall|key: K::V| map_of(left).contains_key(key) implies map_of(left)[key]
            == right[key] by {
            let i = choose|i: int|
                #![trigger left[i]]
                0 <= i < left.len() && left[i].0@ == key;
            assert(left[i].0@ == key);
        }
    }
}

impl<K: Key, V: View> View for Table<K, V> {
    type V = Map<K::V, V::V>;

    closed spec fn view(&self) -> Map<K::V, V::V> {
        map_of(self.entries@)
    }
}

impl<K: Key, V: View> Table<K, V> {
    #[verifier::type_invariant]
    spec fn keys_differ(self) -> bool {
        keys_differ(self.entries@)
    }

    /// A table with no entry.
    pub fn new() -> (table: Self)
        ensures
            table@ == Map::<K::V, V::V>::empty(),
    {
        Table { entries: Vec::new() }
    }

    /// The number of entries.
    pub fn len(&self) -> (count: usize)
        ensures
            self@.dom().finite(),
            count == self@.len(),
    {
        proof {
            use_type_invariant(self);
            lemma_map_of(self.entries@);
        }
        self.entries.len()
    }

    /// Whether there is no entry.
    pub fn is_empty(&self) -> (empty: bool)
        ensures
            empty == (self@ == Map::<K::V, V::V>::empty()),
    {
        let count: usize = self.len();
        proof {
            if count == 0 {
                assert(self@.dom() =~= Set::empty());
                assert(self@ =~= Map::<K::V, V::V>::empty());
            } else {
                assert(Map::<K::V, V::V>::empty().dom() =~= Set::<K::V>::empty());
                assert(Map::<K::V, V::V>::empty().len() == 0);
            }
        }
        count == 0
    }

    fn find(&self, key: &K) -> (found: Option<usize>)
        ensures
            match found {
                Some(index) => index < self.entries@.len() && self.entries@[index as int].0@ == key@
                    && self@.contains_key(key@) && self@[key@] == self.entries@[index as int].1@,
                None => !self@.contains_key(key@),
            },
    {
        proof {
            use_type_invariant(self);
            lemma_map_of(self.entries@);
        }
        let mut i: usize = 0;
        while i < self.entries.len()
            invariant
                i <= self.entries@.len(),
                forall|j: int|
                    #![trigger self.entries@[j]]
                    0 <= j < i ==> self.entries@[j].0@ != key@,
                forall|j: int|
                    #![trigger self.entries@[j]]
                    0 <= j < self.entries@.len() ==> self@.contains_key(self.entries@[j].0@)
                        && self@[self.entries@[j].0@] == self.entries@[j].1@,
            decreases self.entries.len() - i,
        {
            if self.entries[i].0.same(key) {
                return Some(i);
            }
            i = i + 1;
        }
        None
    }

    /// The value of a key.
    pub fn get(&self, key: &K) -> (value: Option<&V>)
        ensures
            match value {
                Some(value) => self@.contains_key(key@) && self@[key@] == value@,
                None => !self@.contains_key(key@),
            },
    {
        match self.find(key) {
            Some(index) => Some(&self.entries[index].1),
            None => None,
        }
    }

    /// Whether the key has a value.
    pub fn contains(&self, key: &K) -> (found: bool)
        ensures
            found == self@.contains_key(key@),
    {
        self.find(key).is_some()
    }

    /// Takes a key's value out.
    pub fn remove(&mut self, key: &K) -> (value: Option<V>)
        ensures
            final(self)@ == old(self)@.remove(key@),
            match value {
                Some(value) => old(self)@.contains_key(key@) && old(self)@[key@] == value@,
                None => !old(self)@.contains_key(key@),
            },
    {
        let ghost before = self.entries@;
        let found = self.find(key);
        proof {
            use_type_invariant(&*self);
            lemma_map_of(before);
        }
        match found {
            None => {
                assert(map_of(before).remove(key@) =~= map_of(before));
                None
            },
            Some(index) => {
                let mut entries: Vec<(K, V)> = Vec::new();
                std::mem::swap(&mut entries, &mut self.entries);
                let (_, value) = entries.remove(index);
                proof {
                    let target = map_of(before).remove(key@);
                    let left = entries@;
                    assert(left =~= before.remove(index as int));
                    assert forall|i: int, j: int|
                        #![trigger left[i], left[j]]
                        0 <= i < j < left.len() implies left[i].0@ != left[j].0@ by {
                        let from_i = if i < index {
                            i
                        } else {
                            i + 1
                        };
                        let from_j = if j < index {
                            j
                        } else {
                            j + 1
                        };
                        assert(before[from_i].0@ != before[from_j].0@);
                    }
                    assert forall|i: int|
                        #![trigger left[i]]
                        0 <= i < left.len() implies target.contains_key(left[i].0@)
                        && target[left[i].0@] == left[i].1@ by {
                        let from_i = if i < index {
                            i
                        } else {
                            i + 1
                        };
                        assert(before[from_i] == left[i]);
                        assert(before[from_i].0@ != before[index as int].0@);
                    }
                    assert forall|k: K::V|
                        #![trigger target.contains_key(k)]
                        target.contains_key(k) implies exists|i: int|
                        #![trigger left[i]]
                        0 <= i < left.len() && left[i].0@ == k by {
                        assert(map_of(before).contains_key(k));
                        let i = choose|i: int|
                            #![trigger before[i]]
                            0 <= i < before.len() && before[i].0@ == k;
                        let to_i = if i < index {
                            i
                        } else {
                            i - 1
                        };
                        assert(left[to_i].0@ == k);
                    }
                    lemma_same_map(left, target);
                }
                self.entries = entries;
                Some(value)
            },
        }
    }

    /// Gives a key a value.
    pub fn insert(&mut self, key: K, value: V)
        ensures
            final(self)@ == old(self)@.insert(key@, value@),
    {
        let ghost initial = self@;
        let _ = self.remove(&key);
        proof {
            use_type_invariant(&*self);
        }
        let ghost before = self.entries@;
        let mut entries: Vec<(K, V)> = Vec::new();
        std::mem::swap(&mut entries, &mut self.entries);
        entries.push((key, value));
        proof {
            lemma_map_of(before);
            let left = entries@;
            assert(left.drop_last() =~= before);
            assert(map_of(left) =~= initial.insert(key@, value@));
            assert forall|i: int, j: int|
                #![trigger left[i], left[j]]
                0 <= i < j < left.len() implies left[i].0@ != left[j].0@ by {
                assert(before[i] == left[i]);
                assert(map_of(before).contains_key(before[i].0@));
                if j < before.len() {
                    assert(before[j] == left[j]);
                } else {
                    assert(!map_of(before).contains_key(key@));
                }
            }
        }
        self.entries = entries;
    }

    /// Whether an entry meets a condition.
    pub fn any<F: Fn(&K, &V) -> bool>(
        &self,
        condition: F,
        Ghost(meets): Ghost<spec_fn(K::V, V::V) -> bool>,
    ) -> (found: bool)
        requires
            forall|key: &K, value: &V| condition.requires((key, value)),
            forall|key: &K, value: &V, met: bool|
                condition.ensures((key, value), met) ==> met == meets(key@, value@),
        ensures
            found ==> exists|key: K::V|
                #![trigger self@.contains_key(key)]
                self@.contains_key(key) && meets(key, self@[key]),
            !found ==> forall|key: K::V|
                #![trigger self@.contains_key(key)]
                self@.contains_key(key) ==> !meets(key, self@[key]),
    {
        proof {
            use_type_invariant(self);
            lemma_map_of(self.entries@);
        }
        let mut i: usize = 0;
        while i < self.entries.len()
            invariant
                i <= self.entries@.len(),
                forall|j: int|
                    #![trigger self.entries@[j]]
                    0 <= j < i ==> !meets(self.entries@[j].0@, self.entries@[j].1@),
                forall|j: int|
                    #![trigger self.entries@[j]]
                    0 <= j < self.entries@.len() ==> self@.contains_key(self.entries@[j].0@)
                        && self@[self.entries@[j].0@] == self.entries@[j].1@,
                forall|key: &K, value: &V| condition.requires((key, value)),
                forall|key: &K, value: &V, met: bool|
                    condition.ensures((key, value), met) ==> met == meets(key@, value@),
            decreases self.entries.len() - i,
        {
            let entry = &self.entries[i];
            if condition(&entry.0, &entry.1) {
                assert(self@.contains_key(self.entries@[i as int].0@));
                return true;
            }
            i = i + 1;
        }
        assert forall|key: K::V| #![trigger self@.contains_key(key)] self@.contains_key(key) implies !meets(
            key,
            self@[key],
        ) by {
            let j = choose|j: int|
                #![trigger self.entries@[j]]
                0 <= j < self.entries@.len() && self.entries@[j].0@ == key;
            assert(self.entries@[j].0@ == key);
        }
        false
    }

    /// The keys whose entries meet a condition, each once.
    pub fn keys_where<F: Fn(&K, &V) -> bool>(
        &self,
        condition: F,
        Ghost(meets): Ghost<spec_fn(K::V, V::V) -> bool>,
    ) -> (keys: Vec<K>)
        requires
            forall|key: &K, value: &V| condition.requires((key, value)),
            forall|key: &K, value: &V, met: bool|
                condition.ensures((key, value), met) ==> met == meets(key@, value@),
        ensures
            keys_are(keys@, Set::new(|key: K::V| self@.contains_key(key) && meets(key, self@[key]))),
    {
        proof {
            use_type_invariant(self);
            lemma_map_of(self.entries@);
        }
        let mut keys: Vec<K> = Vec::new();
        let ghost mut origin: Seq<int> = Seq::empty();
        let mut i: usize = 0;
        while i < self.entries.len()
            invariant
                i <= self.entries@.len(),
                keys_differ(self.entries@),
                origin.len() == keys@.len(),
                forall|j: int|
                    #![trigger keys@[j]]
                    #![trigger origin[j]]
                    0 <= j < keys@.len() ==> 0 <= origin[j] < i && keys@[j]@
                        == self.entries@[origin[j]].0@ && meets(
                        self.entries@[origin[j]].0@,
                        self.entries@[origin[j]].1@,
                    ),
                forall|j: int, l: int| 0 <= j < l < origin.len() ==> origin[j] < origin[l],
                forall|j: int|
                    #![trigger self.entries@[j]]
                    0 <= j < i && meets(self.entries@[j].0@, self.entries@[j].1@) ==> exists|l: int|
                        #![trigger keys@[l]]
                        0 <= l < keys@.len() && keys@[l]@ == self.entries@[j].0@,
                forall|key: &K, value: &V| condition.requires((key, value)),
                forall|key: &K, value: &V, met: bool|
                    condition.ensures((key, value), met) ==> met == meets(key@, value@),
            decreases self.entries.len() - i,
        {
            let entry = &self.entries[i];
            if condition(&entry.0, &entry.1) {
                let ghost earlier = keys@;
                keys.push(entry.0.copy_key());
                proof {
                    let sources = origin;
                    origin = origin.push(i as int);
                    assert forall|j: int|
                        #![trigger keys@[j]]
                        #![trigger origin[j]]
                        0 <= j < keys@.len() implies 0 <= origin[j] < i + 1 && keys@[j]@
                        == self.entries@[origin[j]].0@ && meets(
                        self.entries@[origin[j]].0@,
                        self.entries@[origin[j]].1@,
                    ) by {
                        if j < earlier.len() {
                            assert(earlier[j] == keys@[j]);
                            assert(sources[j] == origin[j]);
                        }
                    }
                    assert forall|j: int, l: int| 0 <= j < l < origin.len() implies origin[j]
                        < origin[l] by {
                        assert(sources[j] == origin[j]);
                        assert(earlier[j] == keys@[j]);
                        if l < sources.len() {
                            assert(sources[l] == origin[l]);
                        }
                    }
                    assert forall|j: int|
                        #![trigger self.entries@[j]]
                        0 <= j <= i && meets(
                            self.entries@[j].0@,
                            self.entries@[j].1@,
                        ) implies exists|l: int|
                        #![trigger keys@[l]]
                        0 <= l < keys@.len() && keys@[l]@ == self.entries@[j].0@ by {
                        if j < i {
                            let l = choose|l: int|
                                #![trigger earlier[l]]
                                0 <= l < earlier.len() && earlier[l]@ == self.entries@[j].0@;
                            assert(keys@[l]@ == self.entries@[j].0@);
                        } else {
                            assert(keys@[keys@.len() - 1]@ == self.entries@[j].0@);
                        }
                    }
                }
            }
            i = i + 1;
        }
        proof {
            let wanted = Set::new(|key: K::V| self@.contains_key(key) && meets(key, self@[key]));
            assert forall|j: int, l: int|
                #![trigger keys@[j], keys@[l]]
                0 <= j < l < keys@.len() implies keys@[j]@ != keys@[l]@ by {
                assert(origin[j] < origin[l]);
            }
            assert forall|key: K::V| wanted.contains(key) implies exists|l: int|
                #![trigger keys@[l]]
                0 <= l < keys@.len() && keys@[l]@ == key by {
                let j = choose|j: int|
                    #![trigger self.entries@[j]]
                    0 <= j < self.entries@.len() && self.entries@[j].0@ == key;
                assert(self.entries@[j].0@ == key);
            }
            assert forall|j: int| #![trigger keys@[j]] 0 <= j < keys@.len() implies wanted.contains(
                keys@[j]@,
            ) by {
                assert(self.entries@[origin[j]].0@ == keys@[j]@);
            }
        }
        keys
    }

    /// Replaces every value.
    pub fn rewrite<F: Fn(&K, V) -> V>(
        &mut self,
        change: F,
        Ghost(changed): Ghost<spec_fn(K::V, V::V) -> V::V>,
    )
        requires
            forall|key: &K, value: V| change.requires((key, value)),
            forall|key: &K, value: V, next: V|
                change.ensures((key, value), next) ==> next@ == changed(key@, value@),
        ensures
            final(self)@ == Map::new(
                |key: K::V| old(self)@.contains_key(key),
                |key: K::V| changed(key, old(self)@[key]),
            ),
    {
        proof {
            use_type_invariant(&*self);
        }
        let ghost before = self.entries@;
        let ghost initial = self@;
        let mut entries: Vec<(K, V)> = Vec::new();
        std::mem::swap(&mut entries, &mut self.entries);
        let mut next: Vec<(K, V)> = Vec::new();
        while entries.len() > 0
            invariant
                keys_differ(before),
                entries@.len() + next@.len() == before.len(),
                forall|i: int|
                    #![trigger entries@[i]]
                    0 <= i < entries@.len() ==> entries@[i] == before[i],
                forall|i: int|
                    #![trigger next@[i]]
                    0 <= i < next@.len() ==> next@[i].0@ == before[before.len() - 1 - i].0@
                        && next@[i].1@ == changed(
                        before[before.len() - 1 - i].0@,
                        before[before.len() - 1 - i].1@,
                    ),
                forall|key: &K, value: V| change.requires((key, value)),
                forall|key: &K, value: V, next: V|
                    change.ensures((key, value), next) ==> next@ == changed(key@, value@),
            decreases entries.len(),
        {
            if let Some((key, value)) = entries.pop() {
                let replaced: V = change(&key, value);
                next.push((key, replaced));
            }
        }
        proof {
            lemma_map_of(before);
            let target = Map::new(
                |key: K::V| initial.contains_key(key),
                |key: K::V| changed(key, initial[key]),
            );
            let left = next@;
            assert forall|i: int, j: int|
                #![trigger left[i], left[j]]
                0 <= i < j < left.len() implies left[i].0@ != left[j].0@ by {
                assert(before[before.len() - 1 - j].0@ != before[before.len() - 1 - i].0@);
            }
            assert forall|i: int| #![trigger left[i]] 0 <= i < left.len() implies target.contains_key(
                left[i].0@,
            ) && target[left[i].0@] == left[i].1@ by {
                assert(map_of(before).contains_key(before[before.len() - 1 - i].0@));
            }
            assert forall|k: K::V|
                #![trigger target.contains_key(k)]
                target.contains_key(k) implies exists|i: int|
                #![trigger left[i]]
                0 <= i < left.len() && left[i].0@ == k by {
                assert(map_of(before).contains_key(k));
                let i = choose|i: int|
                    #![trigger before[i]]
                    0 <= i < before.len() && before[i].0@ == k;
                assert(left[before.len() - 1 - i].0@ == k);
            }
            lemma_same_map(left, target);
        }
        self.entries = next;
    }

    /// Drops every entry that does not meet a condition.
    pub fn retain<F: Fn(&K, &V) -> bool>(
        &mut self,
        condition: F,
        Ghost(meets): Ghost<spec_fn(K::V, V::V) -> bool>,
    )
        requires
            forall|key: &K, value: &V| condition.requires((key, value)),
            forall|key: &K, value: &V, met: bool|
                condition.ensures((key, value), met) ==> met == meets(key@, value@),
        ensures
            final(self)@ == old(self)@.restrict(
                Set::new(
                    |key: K::V| old(self)@.contains_key(key) && meets(key, old(self)@[key]),
                ),
            ),
    {
        let ghost initial = self@;
        let fails = |key: &K, value: &V| -> (failed: bool)
            ensures
                failed == !meets(key@, value@),
        {
            !condition(key, value)
        };
        let dropped = self.keys_where(fails, Ghost(|key: K::V, value: V::V| !meets(key, value)));
        let ghost gone = Set::new(
            |key: K::V| initial.contains_key(key) && !meets(key, initial[key]),
        );
        assert(gone =~= Set::new(
            |key: K::V|
                initial.contains_key(key) && (|key: K::V, value: V::V| !meets(key, value))(
                    key,
                    initial[key],
                ),
        ));
        let mut i: usize = 0;
        while i < dropped.len()
            invariant
                i <= dropped@.len(),
                keys_are(dropped@, gone),
                gone == Set::new(
                    |key: K::V| initial.contains_key(key) && !meets(key, initial[key]),
                ),
                self@ =~= initial.remove_keys(
                    Set::new(
                        |key: K::V|
                            exists|j: int|
                                #![trigger dropped@[j]]
                                0 <= j < i && dropped@[j]@ == key,
                    ),
                ),
            decreases dropped.len() - i,
        {
            let _ = self.remove(&dropped[i]);
            i = i + 1;
        }
        assert(self@ =~= initial.restrict(
            Set::new(|key: K::V| initial.contains_key(key) && meets(key, initial[key])),
        )) by {
            assert forall|key: K::V| initial.contains_key(key) && meets(
                key,
                initial[key],
            ) implies self@.contains_key(key) by {
                assert(!gone.contains(key));
            }
            assert forall|key: K::V| self@.contains_key(key) implies meets(key, initial[key]) by {
                if !meets(key, initial[key]) {
                    assert(gone.contains(key));
                }
            }
        }
    }
}

/// Whether the keys are those of a set, each once.
pub open spec fn keys_are<K: View>(keys: Seq<K>, set: Set<K::V>) -> bool {
    &&& forall|i: int, j: int|
        #![trigger keys[i], keys[j]]
        0 <= i < j < keys.len() ==> keys[i]@ != keys[j]@
    &&& forall|i: int| #![trigger keys[i]] 0 <= i < keys.len() ==> set.contains(keys[i]@)
    &&& forall|key: K::V|
        #![trigger set.contains(key)]
        set.contains(key) ==> exists|i: int|
            #![trigger keys[i]]
            0 <= i < keys.len() && keys[i]@ == key
}

/// The sum of the weights of a map's values.
pub open spec fn total<K, V>(map: Map<K, V>, weight: spec_fn(V) -> nat) -> nat
    decreases map.dom().len(),
    when map.dom().finite()
{
    if map.dom().len() == 0 {
        0
    } else {
        let key = map.dom().choose();
        weight(map[key]) + total(map.remove(key), weight)
    }
}

/// Any key's weight can be taken out of the sum.
pub proof fn lemma_total_remove<K, V>(map: Map<K, V>, weight: spec_fn(V) -> nat, key: K)
    requires
        map.dom().finite(),
        map.contains_key(key),
    ensures
        total(map, weight) == weight(map[key]) + total(map.remove(key), weight),
    decreases map.dom().len(),
{
    let chosen = map.dom().choose();
    assert(map.dom().contains(chosen)) by {
        assert(map.dom().contains(key));
    }
    assert(map.remove(chosen).dom() =~= map.dom().remove(chosen));
    assert(map.remove(key).dom() =~= map.dom().remove(key));
    if chosen != key {
        lemma_total_remove(map.remove(chosen), weight, key);
        lemma_total_remove(map.remove(key), weight, chosen);
        assert(map.remove(chosen).remove(key) =~= map.remove(key).remove(chosen));
    }
}

/// A new key adds its weight to the sum.
pub proof fn lemma_total_insert<K, V>(map: Map<K, V>, weight: spec_fn(V) -> nat, key: K, value: V)
    requires
        map.dom().finite(),
        !map.contains_key(key),
    ensures
        map.insert(key, value).dom().finite(),
        total(map.insert(key, value), weight) == weight(value) + total(map, weight),
{
    let larger = map.insert(key, value);
    assert(larger.dom() =~= map.dom().insert(key));
    lemma_total_remove(larger, weight, key);
    assert(larger.remove(key) =~= map);
}

/// Replacing a key's value replaces its weight in the sum.
pub proof fn lemma_total_replace<K, V>(map: Map<K, V>, weight: spec_fn(V) -> nat, key: K, value: V)
    requires
        map.dom().finite(),
        map.contains_key(key),
    ensures
        map.insert(key, value).dom().finite(),
        total(map.insert(key, value), weight) + weight(map[key]) == total(map, weight) + weight(
            value,
        ),
{
    lemma_total_remove(map, weight, key);
    assert(map.remove(key).dom() =~= map.dom().remove(key));
    lemma_total_insert(map.remove(key), weight, key, value);
    assert(map.remove(key).insert(key, value) =~= map.insert(key, value));
}

/// No map sums to nothing but one without weight.
pub proof fn lemma_total_empty<K, V>(weight: spec_fn(V) -> nat)
    ensures
        total(Map::<K, V>::empty(), weight) == 0,
{
    assert(Map::<K, V>::empty().dom() =~= Set::empty());
}

/// A set of keys.
pub struct KeySet<K: Key> {
    members: Table<K, bool>,
}

impl<K: Key> View for KeySet<K> {
    type V = Set<K::V>;

    closed spec fn view(&self) -> Set<K::V> {
        self.members@.dom()
    }
}

impl<K: Key> KeySet<K> {
    /// The empty set.
    pub fn new() -> (set: Self)
        ensures
            set@ == Set::<K::V>::empty(),
    {
        KeySet { members: Table::new() }
    }

    /// The number of members.
    pub fn len(&self) -> (count: usize)
        ensures
            self@.finite(),
            count == self@.len(),
    {
        self.members.len()
    }

    /// Whether the set holds a key.
    pub fn contains(&self, key: &K) -> (found: bool)
        ensures
            found == self@.contains(key@),
    {
        self.members.contains(key)
    }

    /// Adds a key.
    pub fn insert(&mut self, key: K)
        ensures
            final(self)@ == old(self)@.insert(key@),
    {
        self.members.insert(key, true);
    }

    /// Takes a key out.
    pub fn remove(&mut self, key: &K)
        ensures
            final(self)@ == old(self)@.remove(key@),
    {
        let _ = self.members.remove(key);
    }

    /// Takes every key out.
    pub fn clear(&mut self)
        ensures
            final(self)@ == Set::<K::V>::empty(),
    {
        self.members = Table::new();
    }

    /// Whether a member meets a condition.
    pub fn any<F: Fn(&K) -> bool>(
        &self,
        condition: F,
        Ghost(meets): Ghost<spec_fn(K::V) -> bool>,
    ) -> (found: bool)
        requires
            forall|key: &K| condition.requires((key,)),
            forall|key: &K, met: bool| condition.ensures((key,), met) ==> met == meets(key@),
        ensures
            found ==> exists|key: K::V|
                #![trigger self@.contains(key)]
                self@.contains(key) && meets(key),
            !found ==> forall|key: K::V|
                #![trigger self@.contains(key)]
                self@.contains(key) ==> !meets(key),
    {
        let of_entry = |key: &K, value: &bool| -> (met: bool)
            ensures
                met == meets(key@),
        {
            condition(key)
        };
        let found = self.members.any(of_entry, Ghost(|key: K::V, value: bool| meets(key)));
        proof {
            if found {
                let key = choose|key: K::V|
                    #![trigger self.members@.contains_key(key)]
                    self.members@.contains_key(key) && (|key: K::V, value: bool| meets(key))(
                        key,
                        self.members@[key],
                    );
                assert(self@.contains(key));
            } else {
                assert forall|key: K::V| #![trigger self@.contains(key)] self@.contains(
                    key,
                ) implies !meets(key) by {
                    assert(self.members@.contains_key(key));
                }
            }
        }
        found
    }
}

/// Whether the items are those of a set, each once.
pub open spec fn lists<T>(items: Seq<T>, set: Set<T>) -> bool {
    &&& items.no_duplicates()
    &&& items.to_set() == set
}

/// The values of keys that are those of a set list it.
pub proof fn lemma_keys_list<K: View>(keys: Seq<K>, set: Set<K::V>)
    requires
        keys_are(keys, set),
    ensures
        lists(crate::bytes::views(keys), set),
{
    let items = crate::bytes::views(keys);
    assert(items.no_duplicates()) by {
        assert forall|i: int, j: int| 0 <= i < items.len() && 0 <= j < items.len() && i
            != j implies items[i] != items[j] by {
            if i < j {
                assert(keys[i]@ != keys[j]@);
            } else {
                assert(keys[j]@ != keys[i]@);
            }
        }
    }
    assert(items.to_set() =~= set) by {
        assert forall|item: K::V| items.to_set().contains(item) == set.contains(item) by {
            if items.contains(item) {
                let i = choose|i: int| 0 <= i < items.len() && items[i] == item;
                assert(set.contains(keys[i]@));
            }
            if set.contains(item) {
                let i = choose|i: int| #![trigger keys[i]] 0 <= i < keys.len() && keys[i]@ == item;
                assert(items[i] == item);
            }
        }
    }
}

} // verus!
