//! Keyed storage of values: keys carry a name and an identifier, and a store
//! maps identifiers to values.
use vstd::prelude::*;
use crate::petri_net::IdGenerator;

verus! {

/// Something that identifies a stored value.
pub trait Key {
    spec fn spec_id(&self) -> u64;

    fn id(&self) -> (r: u64)
        ensures
            r == self.spec_id(),
    ;
}

/// A named key with an identifier of its own.
pub struct DefaultKey {
    name: String,
    id: u64,
}

impl View for DefaultKey {
    type V = (Seq<char>, u64);

    closed spec fn view(&self) -> (Seq<char>, u64) {
        (self.name@, self.id)
    }
}

impl DefaultKey {
    /// A key named `name` whose identifier is the next one of `ids`.
    pub fn new(name: String, ids: &mut IdGenerator) -> (r: Self)
        ensures
            r@ == (name@, old(ids)@),
            final(ids)@ == if old(ids)@ < u64::MAX { (old(ids)@ + 1) as u64 } else { 0 },
    {
        DefaultKey { name, id: ids.next_id() }
    }

    pub fn name(&self) -> (r: &String)
        ensures
            r@ == self@.0,
    {
        &self.name
    }

    pub fn clone_key(&self) -> (r: Self)
        ensures
            r@ == self@,
    {
        DefaultKey { name: self.name.clone(), id: self.id }
    }
}

impl Key for DefaultKey {
    open spec fn spec_id(&self) -> u64 {
        self@.1
    }

    fn id(&self) -> (r: u64) {
        self.id
    }
}

/// A value held by a store.
pub struct ValueHolderImpl<V> {
    value: V,
}

impl<V> ValueHolderImpl<V> {
    pub fn new(value: V) -> (r: Self)
        ensures
            r.value() == value,
    {
        ValueHolderImpl { value }
    }

    pub closed spec fn value(&self) -> V {
        self.value
    }

    pub fn get(&self) -> (r: &V)
        ensures
            *r == self.value(),
    {
        &self.value
    }
}

/// Values keyed by key identifiers; a key holds at most one value.
pub struct UserData<V> {
    entries: Vec<(u64, V)>,
}

pub open spec fn entry_ids<V>(entries: Seq<(u64, V)>) -> Seq<u64> {
    entries.map_values(|e: (u64, V)| e.0)
}

/// The map that a list of entries stands for.
pub open spec fn entries_map<V>(entries: Seq<(u64, V)>) -> Map<u64, V> {
    Map::new(
        |id: u64| entry_ids(entries).contains(id),
        |id: u64| entries[entry_ids(entries).index_of(id)].1,
    )
}

impl<V> View for UserData<V> {
    type V = Map<u64, V>;

    closed spec fn view(&self) -> Map<u64, V> {
        entries_map(self.entries@)
    }
}

impl<V> UserData<V> {
    pub closed spec fn wf(&self) -> bool {
        entry_ids(self.entries@).no_duplicates()
    }

    pub fn new() -> (r: Self)
        ensures
            r.wf(),
            r@ == Map::<u64, V>::empty(),
    {
        let r = UserData { entries: Vec::new() };
        assert(entry_ids(r.entries@) =~= Seq::<u64>::empty());
        assert(r@ =~= Map::<u64, V>::empty());
        r
    }

    fn find(&self, id: u64) -> (r: Option<usize>)
        requires
            self.wf(),
        ensures
            match r {
                Some(i) => i < self.entries@.len() && self.entries@[i as int].0 == id
                    && entry_ids(self.entries@).index_of(id) == i,
                None => !entry_ids(self.entries@).contains(id),
            },
    {
        let mut i: usize = 0;
        while i < self.entries.len()
            invariant
                self.wf(),
                i <= self.entries@.len(),
                forall|k: int| 0 <= k < i ==> entry_ids(self.entries@)[k] != id,
            decreases self.entries.len() - i,
        {
            if self.entries[i].0 == id {
                proof {
                    assert(entry_ids(self.entries@)[i as int] == id);
                    crate::count_map::lemma_no_dup_index(entry_ids(self.entries@), i as int);
                }
                return Some(i);
            }
            i = i + 1;
        }
        None
    }

    /// Stores `value` under `key`, replacing what was there.
    pub fn put<K: Key>(&mut self, key: &K, value: V)
        requires
            old(self).wf(),
        ensures
            final(self).wf(),
            final(self)@ == old(self)@.insert(key.spec_id(), value),
    {
        let id = key.id();
        let ghost old_ids = entry_ids(self.entries@);
        let ghost old_map = self@;
        match self.find(id) {
            Some(i) => {
                self.entries.set(i, (id, value));
                assert(entry_ids(self.entries@) =~= old_ids);
                assert(entry_ids(self.entries@)[i as int] == id);
                assert(old_ids.contains(id));
                assert forall|k: u64| old_ids.contains(k) implies #[trigger] self@[k] == old_map.insert(id, value)[k] by {
                    crate::count_map::lemma_no_dup_index(old_ids, old_ids.index_of(k));
                }
                assert(self@ =~= old_map.insert(id, value));
            },
            None => {
                self.entries.push((id, value));
                let ghost ids = entry_ids(self.entries@);
                assert(ids =~= old_ids.push(id));
                assert(ids.no_duplicates()) by {
                    assert forall|a: int, b: int| 0 <= a < b < ids.len() implies ids[a] != ids[b] by {
                        if b == old_ids.len() {
                            assert(old_ids.contains(old_ids[a]));
                        }
                    }
                }
                assert forall|k: u64| #[trigger] ids.contains(k) implies self@[k] == old_map.insert(id, value)[k] by {
                    if k == id {
                        crate::count_map::lemma_no_dup_index(ids, old_ids.len() as int);
                    } else {
                        let j = ids.index_of(k);
                        crate::count_map::lemma_no_dup_index(ids, j);
                        assert(old_ids[j] == k);
                        crate::count_map::lemma_no_dup_index(old_ids, j);
                    }
                }
                assert forall|k: u64| #[trigger] ids.contains(k) <==> old_map.insert(id, value).dom().contains(k) by {
                    if ids.contains(k) && k != id {
                        let j = choose|j: int| 0 <= j < ids.len() && ids[j] == k;
                        assert(old_ids[j] == k);
                    }
                    if old_ids.contains(k) {
                        let j = choose|j: int| 0 <= j < old_ids.len() && old_ids[j] == k;
                        assert(ids[j] == k);
                    }
                    if k == id {
                        assert(ids[old_ids.len() as int] == k);
                    }
                }
                assert(self@ =~= old_map.insert(id, value));
            },
        }
    }

    pub fn put_concrete(&mut self, key: &DefaultKey, value: V)
        requires
            old(self).wf(),
        ensures
            final(self).wf(),
            final(self)@ == old(self)@.insert(key@.1, value),
    {
        self.put(key, value)
    }

    /// Drops the value stored under `key`, if any.
    pub fn remove<K: Key>(&mut self, key: &K)
        requires
            old(self).wf(),
        ensures
            final(self).wf(),
            final(self)@ == old(self)@.remove(key.spec_id()),
    {
        let id = key.id();
        let ghost old_ids = entry_ids(self.entries@);
        let ghost old_map = self@;
        match self.find(id) {
            Some(i) => {
                self.entries.remove(i);
                let ghost ids = entry_ids(self.entries@);
                assert(ids =~= old_ids.remove(i as int));
                assert(ids.no_duplicates()) by {
                    assert forall|a: int, b: int| 0 <= a < b < ids.len() implies ids[a] != ids[b] by {
                        let a0 = if a < i { a } else { a + 1 };
                        let b0 = if b < i { b } else { b + 1 };
                        assert(ids[a] == old_ids[a0] && ids[b] == old_ids[b0]);
                    }
                }
                assert forall|k: u64| #[trigger] ids.contains(k) <==> old_map.remove(id).dom().contains(k) by {
                    if ids.contains(k) {
                        let j = choose|j: int| 0 <= j < ids.len() && ids[j] == k;
                        let j0 = if j < i { j } else { j + 1 };
                        assert(old_ids[j0] == k);
                        assert(old_ids.contains(k));
                        if k == id {
                            crate::count_map::lemma_no_dup_index(old_ids, j0);
                        }
                    }
                    if old_ids.contains(k) && k != id {
                        let j0 = choose|j0: int| 0 <= j0 < old_ids.len() && old_ids[j0] == k;
                        assert(j0 != i);
                        let j = if j0 < i { j0 } else { j0 - 1 };
                        assert(ids[j] == k);
                    }
                }
                assert forall|k: u64| #[trigger] ids.contains(k) implies self@[k] == old_map[k] by {
                    let j = ids.index_of(k);
                    crate::count_map::lemma_no_dup_index(ids, j);
                    let j0 = if j < i { j } else { j + 1 };
                    assert(old_ids[j0] == k);
                    crate::count_map::lemma_no_dup_index(old_ids, j0);
                }
                assert(self@ =~= old_map.remove(id));
            },
            None => {
                assert(self@ =~= old_map.remove(id));
            },
        }
    }

    /// The value stored under `key`.
    pub fn get<K: Key>(&self, key: &K) -> (r: Option<&V>)
        requires
            self.wf(),
        ensures
            match r {
                Some(v) => self@.dom().contains(key.spec_id()) && *v == self@[key.spec_id()],
                None => !self@.dom().contains(key.spec_id()),
            },
    {
        match self.find(key.id()) {
            Some(i) => {
                assert(entry_ids(self.entries@)[i as int] == key.spec_id());
                Some(&self.entries[i].1)
            },
            None => None,
        }
    }

    /// The value stored under `key`, to change in place.
    pub fn get_mut<K: Key>(&mut self, key: &K) -> (r: Option<&mut V>)
        requires
            old(self).wf(),
        ensures
            r matches Some(v) ==> old(self)@.dom().contains(key.spec_id()),
            r matches Some(v) ==> *v == old(self)@[key.spec_id()],
            r matches Some(v) ==> final(self).wf(),
            r matches Some(v) ==> final(self)@ == old(self)@.insert(key.spec_id(), *final(v)),
            r is None ==> !old(self)@.dom().contains(key.spec_id()) && *final(self) == *old(self),
    {
        match self.find(key.id()) {
            Some(i) => {
                let ghost id = key.spec_id();
                let ghost es = self.entries@;
                assert(entry_ids(es)[i as int] == id);
                assert forall|w: V| #![trigger es.update(i as int, (id, w))] entries_map(es.update(i as int, (id, w))) == entries_map(es).insert(id, w)
                    && entry_ids(es.update(i as int, (id, w))).no_duplicates() by {
                    assert(entry_ids(es.update(i as int, (id, w))) =~= entry_ids(es));
                    assert(entry_ids(es).contains(id));
                    assert forall|k: u64| entry_ids(es).contains(k) implies #[trigger] entries_map(es.update(i as int, (id, w)))[k]
                        == entries_map(es).insert(id, w)[k] by {
                        crate::count_map::lemma_no_dup_index(entry_ids(es), entry_ids(es).index_of(k));
                    }
                    assert(entries_map(es.update(i as int, (id, w))) =~= entries_map(es).insert(id, w));
                }
                Some(&mut self.entries[i].1)
            },
            None => None,
        }
    }

    pub fn get_concrete_mut(&mut self, key: &DefaultKey) -> (r: Option<&mut V>)
        requires
            old(self).wf(),
        ensures
            r matches Some(v) ==> old(self)@.dom().contains(key@.1),
            r matches Some(v) ==> *v == old(self)@[key@.1],
            r matches Some(v) ==> final(self).wf(),
            r matches Some(v) ==> final(self)@ == old(self)@.insert(key@.1, *final(v)),
            r is None ==> !old(self)@.dom().contains(key@.1) && *final(self) == *old(self),
    {
        self.get_mut(key)
    }

    pub fn get_concrete(&self, key: &DefaultKey) -> (r: Option<&V>)
        requires
            self.wf(),
        ensures
            match r {
                Some(v) => self@.dom().contains(key@.1) && *v == self@[key@.1],
                None => !self@.dom().contains(key@.1),
            },
    {
        self.get(key)
    }
}

/// A store that is created on first use.
pub struct UserDataHolder<V> {
    user_data: Option<UserData<V>>,
}

impl<V> UserDataHolder<V> {
    /// Whether the store has been created, and its contents.
    pub closed spec fn data(&self) -> Option<UserData<V>> {
        self.user_data
    }

    pub fn new() -> (r: Self)
        ensures
            r.data() is None,
    {
        UserDataHolder { user_data: None }
    }

    /// The store, created empty when there was none.
    pub fn get_mut(&mut self) -> (r: &mut UserData<V>)
        requires
            old(self).data() matches Some(d) ==> d.wf(),
        ensures
            r.wf(),
            old(self).data() matches Some(d) ==> *r == d,
            old(self).data() is None ==> r@ == Map::<u64, V>::empty(),
            final(self).data() == Some(*final(r)),
    {
        if self.user_data.is_none() {
            self.user_data = Some(UserData::new());
        }
        self.user_data.as_mut().unwrap()
    }
}

/// A store gives back under a key the last value put under it, and putting
/// or removing under one key leaves every other key as it was.
pub proof fn lemma_put_then_get<V>(before: UserData<V>, after_put: UserData<V>, after_remove: UserData<V>, key: u64, value: V, other: u64)
    requires
        after_put@ == before@.insert(key, value),
        after_remove@ == after_put@.remove(key),
        other != key,
    ensures
        after_put@.dom().contains(key) && after_put@[key] == value,
        !after_remove@.dom().contains(key),
        after_put@.dom().contains(other) == before@.dom().contains(other),
        after_remove@.dom().contains(other) == before@.dom().contains(other),
        before@.dom().contains(other) ==> after_put@[other] == before@[other] && after_remove@[other] == before@[other],
{
}

} // verus!
