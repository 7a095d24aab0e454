//! The replicated state machine: a string-to-string map held in a `DashMap`.
use dashmap::DashMap;
use std::collections::hash_map::RandomState;
use vstd::prelude::*;

verus! {

#[verifier::external_type_specification]
#[verifier::external_body]
#[verifier::reject_recursive_types(K)]
#[verifier::reject_recursive_types(V)]
#[verifier::reject_recursive_types(S)]
pub struct ExDashMap<K, V, S>(DashMap<K, V, S>);

/// What a `DashMap` of strings holds, as a map from key text to value text.
pub uninterp spec fn dashmap_contents(m: DashMap<String, String, RandomState>) -> Map<Seq<char>, Seq<char>>;

/// The contents of a map with nothing in it.
pub open spec fn no_contents() -> Map<Seq<char>, Seq<char>> {
    Map::empty()
}

/// `DashMap::new`: a map with nothing in it.
#[verifier::external_body]
fn dashmap_new() -> (m: DashMap<String, String, RandomState>)
    ensures
        dashmap_contents(m) == no_contents(),
{
    DashMap::new()
}

/// `DashMap::insert`: `key` maps to `value` afterwards, every other key as before.
/// The previous value that it returns is dropped.
#[verifier::external_body]
fn dashmap_insert(m: &mut DashMap<String, String, RandomState>, key: String, value: String)
    ensures
        dashmap_contents(*final(m)) == dashmap_contents(*old(m)).insert(key@, value@),
{
    m.insert(key, value);
}

/// `DashMap::get`, with the value cloned out of the guard it returns: the value
/// stored under `key`, if any.
#[verifier::external_body]
fn dashmap_get(m: &DashMap<String, String, RandomState>, key: &str) -> (r: Option<String>)
    ensures
        match r {
            Some(v) => dashmap_contents(*m).contains_key(key@) && v@ == dashmap_contents(*m)[key@],
            None => !dashmap_contents(*m).contains_key(key@),
        },
{
    match m.get(key) {
        Some(guard) => Some(guard.value().clone()),
        None => None,
    }
}

/// `DashMap::remove`: `key` is absent afterwards, every other key as before.
#[verifier::external_body]
fn dashmap_remove(m: &mut DashMap<String, String, RandomState>, key: &str)
    ensures
        dashmap_contents(*final(m)) == dashmap_contents(*old(m)).remove(key@),
{
    m.remove(key);
}

/// `DashMap::clear`: nothing is left.
#[verifier::external_body]
fn dashmap_clear(m: &mut DashMap<String, String, RandomState>)
    ensures
        dashmap_contents(*final(m)) == no_contents(),
{
    m.clear();
}

/// Whether `entries` lists the pairs of `contents`, each key once. The order is the
/// map's iteration order, which depends on the per-process hash seed and is left open.
pub open spec fn lists_contents(entries: Seq<(String, String)>, contents: Map<Seq<char>, Seq<char>>) -> bool {
    &&& forall|i: int|
        0 <= i < entries.len() ==> contents.contains_key((#[trigger] entries[i]).0@)
            && contents[entries[i].0@] == entries[i].1@
    &&& forall|k: Seq<char>|
        #[trigger] contents.contains_key(k) ==> exists|i: int|
            0 <= i < entries.len() && (#[trigger] entries[i]).0@ == k
    &&& forall|i: int, j: int|
        0 <= i < j < entries.len() ==> (#[trigger] entries[i]).0@ != (#[trigger] entries[j]).0@
}

/// `DashMap::iter`, each item's key and value cloned: every pair of the map once,
/// in an order that is left open.
#[verifier::external_body]
fn dashmap_entries(m: &DashMap<String, String, RandomState>) -> (r: Vec<(String, String)>)
    ensures
        lists_contents(r@, dashmap_contents(*m)),
{
    m.iter().map(|item| (item.key().clone(), item.value().clone())).collect()
}

/// `DashMap`'s `IntoIterator`: consumes the map and yields every pair once, in an
/// order that is left open.
#[verifier::external_body]
fn dashmap_into_entries(m: DashMap<String, String, RandomState>) -> (r: Vec<(String, String)>)
    ensures
        lists_contents(r@, dashmap_contents(m)),
{
    m.into_iter().collect()
}

/// The key-value store that committed commands are applied to.
pub struct KvStore {
    data: DashMap<String, String, RandomState>,
}

impl View for KvStore {
    type V = Map<Seq<char>, Seq<char>>;

    closed spec fn view(&self) -> Map<Seq<char>, Seq<char>> {
        dashmap_contents(self.data)
    }
}

/// Puts every pair of `entries` into the empty map `m`, in order; `entries` lists
/// the pairs of `target`, so `m` ends up holding exactly `target`.
fn insert_entries(
    m: &mut DashMap<String, String, RandomState>,
    entries: &Vec<(String, String)>,
    Ghost(target): Ghost<Map<Seq<char>, Seq<char>>>,
)
    requires
        dashmap_contents(*old(m)) == Map::<Seq<char>, Seq<char>>::empty(),
        lists_contents(entries@, target),
    ensures
        dashmap_contents(*final(m)) == target,
{
    let mut i: usize = 0;
    while i < entries.len()
        invariant
            i <= entries.len(),
            lists_contents(entries@, target),
            forall|j: int|
                0 <= j < i ==> dashmap_contents(*m).contains_key((#[trigger] entries@[j]).0@)
                    && dashmap_contents(*m)[entries@[j].0@] == entries@[j].1@,
            forall|k: Seq<char>|
                #[trigger] dashmap_contents(*m).contains_key(k) ==> exists|j: int|
                    0 <= j < i && (#[trigger] entries@[j]).0@ == k,
        decreases entries.len() - i,
    {
        let key = entries[i].0.clone();
        let value = entries[i].1.clone();
        let ghost before = dashmap_contents(*m);
        dashmap_insert(m, key, value);
        proof {
            assert forall|j: int| 0 <= j < i + 1 implies dashmap_contents(*m).contains_key(
                (#[trigger] entries@[j]).0@,
            ) && dashmap_contents(*m)[entries@[j].0@] == entries@[j].1@ by {
                if j < i {
                    assert(entries@[j].0@ != entries@[i as int].0@);
                }
            }
            assert forall|k: Seq<char>| #[trigger] dashmap_contents(*m).contains_key(k) implies exists|
                j: int,
            | 0 <= j < i + 1 && (#[trigger] entries@[j]).0@ == k by {
                if k != entries@[i as int].0@ {
                    assert(before.contains_key(k));
                } else {
                    assert(entries@[i as int].0@ == k);
                }
            }
        }
        i = i + 1;
    }
    proof {
        assert forall|k: Seq<char>| #[trigger] target.contains_key(k) implies dashmap_contents(
            *m,
        ).contains_key(k) && dashmap_contents(*m)[k] == target[k] by {
            let j = choose|j: int| 0 <= j < entries@.len() && (#[trigger] entries@[j]).0@ == k;
            assert(dashmap_contents(*m).contains_key(entries@[j].0@));
        }
        assert forall|k: Seq<char>| #[trigger] dashmap_contents(*m).contains_key(k) implies target.contains_key(k) by {
            let j = choose|j: int| 0 <= j < i && (#[trigger] entries@[j]).0@ == k;
            assert(target.contains_key(entries@[j].0@));
        }
        assert(dashmap_contents(*m) =~= target);
    }
}

impl KvStore {
    /// An empty store.
    pub fn new() -> (kv: Self)
        ensures
            kv@ == Map::<Seq<char>, Seq<char>>::empty(),
    {
        KvStore { data: dashmap_new() }
    }

    /// Stores `value` under `key`.
    pub fn set(&mut self, key: String, value: String)
        ensures
            final(self)@ == old(self)@.insert(key@, value@),
    {
        dashmap_insert(&mut self.data, key, value);
    }

    /// The value stored under `key`, if any.
    pub fn get(&self, key: &str) -> (r: Option<String>)
        ensures
            match r {
                Some(v) => self@.contains_key(key@) && v@ == self@[key@],
                None => !self@.contains_key(key@),
            },
    {
        dashmap_get(&self.data, key)
    }

    /// Removes `key`.
    pub fn delete(&mut self, key: &str)
        ensures
            final(self)@ == old(self)@.remove(key@),
    {
        dashmap_remove(&mut self.data, key);
    }

    /// Every key, once each, in an order that is left open.
    pub fn keys(&self) -> (keys: Vec<String>)
        ensures
            forall|i: int| 0 <= i < keys@.len() ==> self@.contains_key((#[trigger] keys@[i])@),
            forall|k: Seq<char>|
                #[trigger] self@.contains_key(k) ==> exists|i: int|
                    0 <= i < keys@.len() && (#[trigger] keys@[i])@ == k,
            forall|i: int, j: int|
                0 <= i < j < keys@.len() ==> (#[trigger] keys@[i])@ != (#[trigger] keys@[j])@,
    {
        let entries = dashmap_entries(&self.data);
        let mut keys: Vec<String> = Vec::new();
        let mut i: usize = 0;
        while i < entries.len()
            invariant
                i <= entries.len(),
                keys@.len() == i,
                forall|j: int| 0 <= j < i ==> (#[trigger] keys@[j])@ == entries@[j].0@,
            decreases entries.len() - i,
        {
            keys.push(entries[i].0.clone());
            i = i + 1;
        }
        proof {
            assert forall|k: Seq<char>| #[trigger] self@.contains_key(k) implies exists|i: int|
                0 <= i < keys@.len() && (#[trigger] keys@[i])@ == k by {
                let i = choose|i: int| 0 <= i < entries@.len() && (#[trigger] entries@[i]).0@ == k;
                assert(keys@[i]@ == k);
            }
            assert forall|i: int, j: int| 0 <= i < j < keys@.len() implies (#[trigger] keys@[i])@
                != (#[trigger] keys@[j])@ by {
                assert(entries@[i].0@ != entries@[j].0@);
            }
        }
        keys
    }

    /// Removes every key.
    pub fn clear(&mut self)
        ensures
            final(self)@ == Map::<Seq<char>, Seq<char>>::empty(),
    {
        dashmap_clear(&mut self.data);
    }

    /// A separate map holding the same pairs as the store.
    pub fn get_state(&self) -> (state: DashMap<String, String, RandomState>)
        ensures
            dashmap_contents(state) == self@,
    {
        let mut new_map = dashmap_new();
        let entries = dashmap_entries(&self.data);
        insert_entries(&mut new_map, &entries, Ghost(self@));
        new_map
    }

    /// Replaces everything in the store with the pairs of `state`.
    pub fn restore_state(&mut self, state: DashMap<String, String, RandomState>)
        ensures
            final(self)@ == dashmap_contents(state),
    {
        dashmap_clear(&mut self.data);
        let ghost target = dashmap_contents(state);
        let entries = dashmap_into_entries(state);
        insert_entries(&mut self.data, &entries, Ghost(target));
    }
}

/// Read your write: after `set(key, value)`, `get(key)` gives `value`, and every
/// other key reads as before.
pub proof fn law_get_after_set(
    before: Map<Seq<char>, Seq<char>>,
    key: Seq<char>,
    value: Seq<char>,
    other: Seq<char>,
)
    ensures
        before.insert(key, value).contains_key(key),
        before.insert(key, value)[key] == value,
        other != key ==> before.insert(key, value).contains_key(other) == before.contains_key(other),
        other != key && before.contains_key(other) ==> before.insert(key, value)[other] == before[other],
{
}

/// After `delete(key)`, `get(key)` gives nothing, and every other key reads as before.
pub proof fn law_get_after_delete(before: Map<Seq<char>, Seq<char>>, key: Seq<char>, other: Seq<char>)
    ensures
        !before.remove(key).contains_key(key),
        other != key ==> before.remove(key).contains_key(other) == before.contains_key(other),
        other != key && before.contains_key(other) ==> before.remove(key)[other] == before[other],
{
}

/// After `clear()`, no key reads anything.
pub proof fn law_get_after_clear(key: Seq<char>)
    ensures
        !no_contents().contains_key(key),
{
}

} // verus!
