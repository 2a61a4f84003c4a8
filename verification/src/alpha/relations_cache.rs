//! A cache of computed relations between pairs of classes.
use vstd::prelude::*;
use crate::text::str_eq;

verus! {

/// Remembers a boolean per ordered pair of classes; the first value put for
/// a pair stays.
pub struct RelationsCache {
    entries: Vec<(String, String, bool)>,
}

pub open spec fn cache_keys(entries: Seq<(String, String, bool)>) -> Seq<(Seq<char>, Seq<char>)> {
    entries.map_values(|e: (String, String, bool)| (e.0@, e.1@))
}

impl View for RelationsCache {
    type V = Map<(Seq<char>, Seq<char>), bool>;

    closed spec fn view(&self) -> Map<(Seq<char>, Seq<char>), bool> {
        Map::new(
            |k: (Seq<char>, Seq<char>)| cache_keys(self.entries@).contains(k),
            |k: (Seq<char>, Seq<char>)| self.entries@[cache_keys(self.entries@).index_of(k)].2,
        )
    }
}

impl RelationsCache {
    pub closed spec fn wf(&self) -> bool {
        cache_keys(self.entries@).no_duplicates()
    }

    pub fn empty() -> (r: Self)
        ensures
            r.wf(),
            r@ == Map::<(Seq<char>, Seq<char>), bool>::empty(),
    {
        let r = RelationsCache { entries: Vec::new() };
        assert(cache_keys(r.entries@) =~= Seq::<(Seq<char>, Seq<char>)>::empty());
        assert(r@ =~= Map::<(Seq<char>, Seq<char>), bool>::empty());
        r
    }

    fn find(&self, first: &str, second: &str) -> (r: Option<usize>)
        requires
            self.wf(),
        ensures
            match r {
                Some(i) => i < self.entries@.len() && cache_keys(self.entries@)[i as int] == (first@, second@)
                    && cache_keys(self.entries@).index_of((first@, second@)) == i,
                None => !cache_keys(self.entries@).contains((first@, second@)),
            },
    {
        let mut i: usize = 0;
        while i < self.entries.len()
            invariant
                self.wf(),
                i <= self.entries@.len(),
                forall|k: int| 0 <= k < i ==> cache_keys(self.entries@)[k] != (first@, second@),
            decreases self.entries.len() - i,
        {
            let e = &self.entries[i];
            if str_eq(e.0.as_str(), first) && str_eq(e.1.as_str(), second) {
                proof {
                    assert(cache_keys(self.entries@)[i as int] == (first@, second@));
                    crate::count_map::lemma_no_dup_index(cache_keys(self.entries@), i as int);
                }
                return Some(i);
            }
            i = i + 1;
        }
        None
    }

    /// The value remembered for `(first, second)`.
    pub fn try_get(&self, first: &str, second: &str) -> (r: Option<&bool>)
        requires
            self.wf(),
        ensures
            match r {
                Some(v) => self@.dom().contains((first@, second@)) && *v == self@[(first@, second@)],
                None => !self@.dom().contains((first@, second@)),
            },
    {
        match self.find(first, second) {
            Some(i) => Some(&self.entries[i].2),
            None => None,
        }
    }

    /// Remembers `value` for `(first, second)` unless a value is there already.
    pub fn put(&mut self, first: &str, second: &str, value: bool)
        requires
            old(self).wf(),
        ensures
            final(self).wf(),
            final(self)@ == if old(self)@.dom().contains((first@, second@)) {
                old(self)@
            } else {
                old(self)@.insert((first@, second@), value)
            },
    {
        if self.find(first, second).is_some() {
            return;
        }
        let ghost old_keys = cache_keys(self.entries@);
        let ghost old_map = self@;
        let ghost key = (first@, second@);
        self.entries.push((first.to_string(), second.to_string(), value));
        let ghost keys = cache_keys(self.entries@);
        assert(keys =~= old_keys.push(key));
        assert(keys.no_duplicates()) by {
            assert forall|a: int, b: int| 0 <= a < b < keys.len() implies keys[a] != keys[b] by {
                if b == old_keys.len() {
                    assert(old_keys.contains(old_keys[a]));
                }
            }
        }
        assert forall|k: (Seq<char>, Seq<char>)| #[trigger] keys.contains(k) implies self@[k] == old_map.insert(key, value)[k] by {
            if k == key {
                crate::count_map::lemma_no_dup_index(keys, old_keys.len() as int);
            } else {
                let j = keys.index_of(k);
                crate::count_map::lemma_no_dup_index(keys, j);
                assert(old_keys[j] == k);
                crate::count_map::lemma_no_dup_index(old_keys, j);
            }
        }
        assert forall|k: (Seq<char>, Seq<char>)| #[trigger] keys.contains(k) <==> old_map.insert(key, value).dom().contains(k) by {
            if keys.contains(k) && k != key {
                let j = choose|j: int| 0 <= j < keys.len() && keys[j] == k;
                assert(old_keys[j] == k);
            }
            if old_keys.contains(k) {
                let j = choose|j: int| 0 <= j < old_keys.len() && old_keys[j] == k;
                assert(keys[j] == k);
            }
            if k == key {
                assert(keys[old_keys.len() as int] == k);
            }
        }
        assert(self@ =~= old_map.insert(key, value));
    }
}

/// The cache keeps the first value put for a pair: once a pair is present,
/// putting it again changes nothing, and what is read back for it is the
/// value first put.
pub proof fn lemma_cache_first_put_wins(
    empty: RelationsCache,
    first: RelationsCache,
    second: RelationsCache,
    key: (Seq<char>, Seq<char>),
    v1: bool,
    v2: bool,
)
    requires
        empty@ == Map::<(Seq<char>, Seq<char>), bool>::empty(),
        first@ == (if empty@.dom().contains(key) { empty@ } else { empty@.insert(key, v1) }),
        second@ == (if first@.dom().contains(key) { first@ } else { first@.insert(key, v2) }),
    ensures
        second@.dom().contains(key),
        second@[key] == v1,
        second@ == first@,
{
}

} // verus!
