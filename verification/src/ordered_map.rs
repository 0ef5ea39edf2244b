//! A map that remembers the order in which its keys first arrived.
//!
//! Keys are few here (providers of one task, resource names, result hashes),
//! so a vector of entries with distinct keys is all that is needed.
use crate::views::Duplicate;
use vstd::prelude::*;

verus! {

/// What can be a key: equality of keys is equality of their views.
pub trait MapKey: View + Sized {
    fn same_key(&self, other: &Self) -> (same: bool)
        ensures
            same == (self@ == other@),
    ;
}

impl MapKey for String {
    fn same_key(&self, other: &Self) -> (same: bool) {
        *self == *other
    }
}

impl MapKey for Vec<u8> {
    fn same_key(&self, other: &Self) -> (same: bool) {
        if self.len() != other.len() {
            return false;
        }
        let mut i: usize = 0;
        while i < self.len()
            invariant
                i <= self.len() == other.len(),
                forall|j: int| 0 <= j < i ==> self@[j] == other@[j],
            decreases self.len() - i,
        {
            if self[i] != other[i] {
                assert(self@[i as int] != other@[i as int]);
                return false;
            }
            i += 1;
        }
        assert(self@ =~= other@);
        true
    }
}

impl MapKey for i64 {
    fn same_key(&self, other: &Self) -> (same: bool) {
        *self == *other
    }
}

impl MapKey for (String, String) {
    fn same_key(&self, other: &Self) -> (same: bool) {
        self.0 == other.0 && self.1 == other.1
    }
}

/// No key occurs twice.
pub open spec fn keys_distinct<A, B>(entries: Seq<(A, B)>) -> bool {
    forall|i: int, j: int|
        0 <= i < j < entries.len() ==> #[trigger] entries[i].0 != #[trigger] entries[j].0
}

/// The position of the entry for `key`, if there is one.
pub open spec fn find<A, B>(entries: Seq<(A, B)>, key: A) -> Option<int> {
    if exists|i: int| 0 <= i < entries.len() && #[trigger] entries[i].0 == key {
        Some(choose|i: int| 0 <= i < entries.len() && #[trigger] entries[i].0 == key)
    } else {
        None
    }
}

/// The value stored for `key`, if there is one.
pub open spec fn lookup<A, B>(entries: Seq<(A, B)>, key: A) -> Option<B> {
    match find(entries, key) {
        Some(i) => Some(entries[i].1),
        None => None,
    }
}

/// The entries after `value` was stored for `key`: in place where the key is
/// known, at the end where it is new.
pub open spec fn upsert<A, B>(entries: Seq<(A, B)>, key: A, value: B) -> Seq<(A, B)> {
    match find(entries, key) {
        Some(i) => entries.update(i, (key, value)),
        None => entries.push((key, value)),
    }
}

/// The keys in the order of their first arrival.
pub open spec fn keys_of<A, B>(entries: Seq<(A, B)>) -> Seq<A> {
    entries.map_values(|e: (A, B)| e.0)
}

/// With distinct keys the position of a key is unique.
pub proof fn lemma_find_at<A, B>(entries: Seq<(A, B)>, i: int)
    requires
        keys_distinct(entries),
        0 <= i < entries.len(),
    ensures
        find(entries, entries[i].0) == Some(i),
        lookup(entries, entries[i].0) == Some(entries[i].1),
{
    let key = entries[i].0;
    let k = choose|k: int| 0 <= k < entries.len() && #[trigger] entries[k].0 == key;
    assert(entries[i].0 == key);
    if k < i {
        assert(entries[k].0 != entries[i].0);
    } else if i < k {
        assert(entries[i].0 != entries[k].0);
    }
}

/// Storing a value gives it back on lookup, and no other key notices.
pub proof fn lemma_upsert_lookup<A, B>(entries: Seq<(A, B)>, key: A, value: B, other: A)
    requires
        keys_distinct(entries),
    ensures
        keys_distinct(upsert(entries, key, value)),
        lookup(upsert(entries, key, value), key) == Some(value),
        other != key ==> lookup(upsert(entries, key, value), other) == lookup(entries, other),
{
    let after = upsert(entries, key, value);
    let at: int = match find(entries, key) {
        Some(i) => i,
        None => entries.len() as int,
    };
    assert(keys_distinct(after)) by {
        assert forall|i: int, j: int| 0 <= i < j < after.len() implies #[trigger] after[i].0
            != #[trigger] after[j].0 by {
            if i < entries.len() && j < entries.len() {
                assert(entries[i].0 != entries[j].0);
            } else {
                assert(entries[i].0 == after[i].0);
            }
        }
    }
    assert(after[at].0 == key);
    lemma_find_at(after, at);
    if other != key {
        match find(entries, other) {
            Some(i) => {
                assert(after[i].0 == other);
                lemma_find_at(after, i);
            },
            None => {
                if find(after, other) is Some {
                    let i = find(after, other).unwrap();
                    assert(after[i].0 == other);
                    assert(entries[i].0 == other);
                }
            },
        }
    }
}

/// A map from keys to values that keeps its keys in order of arrival.
#[derive(Debug, PartialEq, Eq)]
pub struct OrderedMap<K: MapKey, V: View> {
    entries: Vec<(K, V)>,
}

spec fn view_entries<K: View, V: View>(entries: Seq<(K, V)>) -> Seq<(K::V, V::V)> {
    entries.map_values(|e: (K, V)| (e.0@, e.1@))
}

impl<K: MapKey, V: View> View for OrderedMap<K, V> {
    type V = Seq<(K::V, V::V)>;

    closed spec fn view(&self) -> Seq<(K::V, V::V)> {
        view_entries(self.entries@)
    }
}

impl<K: MapKey, V: View> OrderedMap<K, V> {
    /// No key occurs twice.
    #[verifier::type_invariant]
    pub open spec fn wf(&self) -> bool {
        keys_distinct(self@)
    }

    /// The number of entries, which fits a machine word.
    pub proof fn lemma_len_bound(&self)
        ensures
            self@.len() <= usize::MAX,
    {
        assert(self.entries.len() == self@.len());
    }

    /// An empty map.
    pub fn new() -> (map: Self)
        ensures
            map@ == Seq::<(K::V, V::V)>::empty(),
    {
        let entries: Vec<(K, V)> = Vec::new();
        let map = OrderedMap { entries };
        assert(map@ =~= Seq::<(K::V, V::V)>::empty());
        map
    }

    /// The number of entries.
    pub fn len(&self) -> (len: usize)
        ensures
            len == self@.len(),
    {
        self.entries.len()
    }

    /// Whether there is no entry.
    pub fn is_empty(&self) -> (empty: bool)
        ensures
            empty == (self@.len() == 0),
    {
        self.entries.len() == 0
    }

    /// The key of the `i`-th entry.
    pub fn key_at(&self, i: usize) -> (key: &K)
        requires
            i < self@.len(),
        ensures
            key@ == self@[i as int].0,
    {
        &self.entries[i].0
    }

    /// The value of the `i`-th entry.
    pub fn value_at(&self, i: usize) -> (value: &V)
        requires
            i < self@.len(),
        ensures
            value@ == self@[i as int].1,
    {
        &self.entries[i].1
    }

    /// The position of a key.
    pub fn position(&self, key: &K) -> (position: Option<usize>)
        ensures
            match position {
                Some(i) => i < self@.len() && find(self@, key@) == Some(i as int)
                    && self@[i as int].0 == key@,
                None => find(self@, key@) is None,
            },
    {
        proof {
            use_type_invariant(self);
        }
        let mut i: usize = 0;
        while i < self.entries.len()
            invariant
                i <= self.entries.len(),
                keys_distinct(self@),
                forall|j: int| 0 <= j < i ==> #[trigger] self@[j].0 != key@,
            decreases self.entries.len() - i,
        {
            if self.entries[i].0.same_key(key) {
                proof {
                    lemma_find_at(self@, i as int);
                }
                return Some(i);
            }
            assert(self@[i as int].0 != key@);
            i += 1;
        }
        None
    }

    /// Whether `key` has an entry.
    pub fn contains_key(&self, key: &K) -> (known: bool)
        ensures
            known == (lookup(self@, key@) is Some),
    {
        self.position(key).is_some()
    }

    /// The value stored for `key`.
    pub fn get(&self, key: &K) -> (value: Option<&V>)
        ensures
            match value {
                Some(v) => lookup(self@, key@) == Some(v@),
                None => lookup(self@, key@) is None,
            },
    {
        match self.position(key) {
            Some(i) => Some(&self.entries[i].1),
            None => None,
        }
    }

    /// Stores `value` for `key`, replacing what was stored for it.
    pub fn insert(&mut self, key: K, value: V)
        ensures
            final(self)@ == upsert(old(self)@, key@, value@),
    {
        let ghost before = self@;
        proof {
            use_type_invariant(&*self);
            lemma_upsert_lookup(before, key@, value@, key@);
        }
        let place = self.position(&key);
        let mut entries: Vec<(K, V)> = Vec::new();
        std::mem::swap(&mut entries, &mut self.entries);
        match place {
            Some(i) => {
                entries.set(i, (key, value));
                assert(view_entries(entries@) =~= before.update(i as int, (key@, value@)));
            },
            None => {
                entries.push((key, value));
                assert(view_entries(entries@) =~= before.push((key@, value@)));
            },
        }
        self.entries = entries;
    }

    /// Exchanges the value of the `i`-th entry.
    pub fn swap_value(&mut self, i: usize, value: &mut V)
        requires
            i < old(self)@.len(),
        ensures
            final(self)@ == old(self)@.update(
                i as int,
                (old(self)@[i as int].0, old(value)@),
            ),
            final(value)@ == old(self)@[i as int].1,
    {
        let ghost before = self@;
        proof {
            use_type_invariant(&*self);
        }
        let mut entries: Vec<(K, V)> = Vec::new();
        std::mem::swap(&mut entries, &mut self.entries);
        let ghost stored = entries@;
        let ghost given = *value;
        std::mem::swap(&mut entries[i].1, value);
        assert(entries@ =~= stored.update(i as int, (stored[i as int].0, given)));
        assert(view_entries(entries@) =~= before.update(
            i as int,
            (before[i as int].0, given@),
        ));
        assert(keys_distinct(view_entries(entries@)));
        self.entries = entries;
    }
}

impl<K: MapKey + Duplicate, V: Duplicate> Clone for OrderedMap<K, V> {
    fn clone(&self) -> (copy: Self)
        ensures
            copy@ == self@,
    {
        let mut entries: Vec<(K, V)> = Vec::new();
        let mut i: usize = 0;
        while i < self.entries.len()
            invariant
                i <= self.entries.len(),
                entries@.len() == i,
                forall|j: int|
                    0 <= j < i ==> (#[trigger] entries@[j]).0@ == self.entries@[j].0@ && entries@[j].1@
                        == self.entries@[j].1@,
            decreases self.entries.len() - i,
        {
            let entry = &self.entries[i];
            entries.push((entry.0.duplicate(), entry.1.duplicate()));
            i += 1;
        }
        proof {
            use_type_invariant(self);
        }
        assert(view_entries(entries@) =~= self@);
        OrderedMap { entries }
    }
}

// ---------------------------------------------------------------- laws

/// A key has the value with which it is listed, and none where it is not listed.
pub proof fn law_lookup_finds_what_is_listed<A, B>(entries: Seq<(A, B)>, key: A, value: B)
    requires
        keys_distinct(entries),
    ensures
        lookup(entries, key) == Some(value) <==> entries.contains((key, value)),
        lookup(entries, key) is None <==> forall|i: int|
            0 <= i < entries.len() ==> (#[trigger] entries[i]).0 != key,
{
    if entries.contains((key, value)) {
        let i = choose|i: int| 0 <= i < entries.len() && entries[i] == (key, value);
        lemma_find_at(entries, i);
    }
    if let Some(i) = find(entries, key) {
        assert(entries[i].0 == key);
        if lookup(entries, key) == Some(value) {
            assert(entries[i] == (key, value));
        }
    }
    if !(forall|i: int| 0 <= i < entries.len() ==> (#[trigger] entries[i]).0 != key) {
        let i = choose|i: int| 0 <= i < entries.len() && (#[trigger] entries[i]).0 == key;
        lemma_find_at(entries, i);
    }
}

/// Storing a value for a known key changes that entry alone and leaves it in its
/// place; for a new key it adds one entry at the end.
pub proof fn law_storing_keeps_the_order<A, B>(entries: Seq<(A, B)>, key: A, value: B)
    requires
        keys_distinct(entries),
    ensures
        ({
            let after = upsert(entries, key, value);
            let known = exists|i: int| 0 <= i < entries.len() && (#[trigger] entries[i]).0 == key;
            &&& known ==> after.len() == entries.len()
            &&& !known ==> after.len() == entries.len() + 1 && after.last() == (key, value)
            &&& forall|i: int|
                0 <= i < entries.len() ==> #[trigger] after[i] == if entries[i].0 == key {
                    (key, value)
                } else {
                    entries[i]
                }
        }),
{
    if exists|i: int| 0 <= i < entries.len() && (#[trigger] entries[i]).0 == key {
        let i = choose|i: int| 0 <= i < entries.len() && (#[trigger] entries[i]).0 == key;
        lemma_find_at(entries, i);
        assert forall|j: int| 0 <= j < entries.len() implies #[trigger] upsert(
            entries,
            key,
            value,
        )[j] == if entries[j].0 == key {
            (key, value)
        } else {
            entries[j]
        } by {
            if j != i && entries[j].0 == key {
                lemma_find_at(entries, j);
            }
        }
    } else if find(entries, key) is Some {
        let i = find(entries, key).unwrap();
        assert(entries[i].0 == key);
    }
}

/// The keys are those of the entries, in their order.
pub proof fn law_keys_are_those_of_the_entries<A, B>(entries: Seq<(A, B)>, i: int)
    requires
        0 <= i < entries.len(),
    ensures
        keys_of(entries).len() == entries.len(),
        keys_of(entries)[i] == entries[i].0,
{
}

} // verus!
