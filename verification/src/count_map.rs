//! Occurrence counters keyed by class names and by pairs of class names.
use vstd::prelude::*;
use crate::text::{str_eq, strings_view};

verus! {

/// Counts keyed by a class name.
pub struct CountMap {
    keys: Vec<String>,
    counts: Vec<usize>,
}

impl CountMap {
    pub closed spec fn key_seq(&self) -> Seq<Seq<char>> {
        strings_view(self.keys@)
    }

    pub closed spec fn wf(&self) -> bool {
        &&& self.keys@.len() == self.counts@.len()
        &&& self.key_seq().no_duplicates()
        &&& forall|i: int| 0 <= i < self.counts@.len() ==> #[trigger] self.counts@[i] > 0
    }

    /// The count of `k` (zero for an absent key).
    pub closed spec fn count(&self, k: Seq<char>) -> nat {
        if self.key_seq().contains(k) {
            self.counts@[self.key_seq().index_of(k)] as nat
        } else {
            0
        }
    }

    pub fn new() -> (r: Self)
        ensures
            r.wf(),
            forall|k: Seq<char>| r.count(k) == 0,
    {
        let r = CountMap { keys: Vec::new(), counts: Vec::new() };
        assert(r.key_seq() =~= Seq::<Seq<char>>::empty());
        r
    }

    fn find(&self, key: &str) -> (r: Option<usize>)
        requires
            self.wf(),
        ensures
            r matches Some(i) ==> i < self.keys@.len() && self.key_seq()[i as int] == key@,
            r is None ==> !self.key_seq().contains(key@),
    {
        let mut i: usize = 0;
        while i < self.keys.len()
            invariant
                i <= self.keys@.len(),
                self.key_seq().len() == self.keys@.len(),
                forall|k: int| 0 <= k < i ==> self.key_seq()[k] != key@,
            decreases self.keys.len() - i,
        {
            if str_eq(self.keys[i].as_str(), key) {
                return Some(i);
            }
            i = i + 1;
        }
        None
    }

    pub fn get(&self, key: &str) -> (r: usize)
        requires
            self.wf(),
        ensures
            r == self.count(key@),
    {
        match self.find(key) {
            Some(i) => {
                proof {
                    lemma_no_dup_index(self.key_seq(), i as int);
                }
                self.counts[i]
            },
            None => 0,
        }
    }

    pub fn increment(&mut self, key: &str)
        requires
            old(self).wf(),
            old(self).count(key@) < usize::MAX,
        ensures
            final(self).wf(),
            forall|k: Seq<char>| #[trigger] final(self).count(k) == old(self).count(k) + if k == key@ { 1nat } else { 0nat },
    {
        let ghost old_self = *self;
        match self.find(key) {
            Some(i) => {
                proof {
                    lemma_no_dup_index(self.key_seq(), i as int);
                }
                let c = self.counts[i];
                self.counts.set(i, c + 1);
                assert(self.key_seq() == old_self.key_seq());
                assert forall|k: Seq<char>| #[trigger] self.count(k) == old_self.count(k) + if k == key@ { 1nat } else { 0nat } by {
                    if self.key_seq().contains(k) {
                        lemma_no_dup_index(self.key_seq(), self.key_seq().index_of(k));
                    }
                }
            },
            None => {
                let ghost old_keys = self.key_seq();
                self.keys.push(key.to_string());
                self.counts.push(1);
                assert(self.key_seq() =~= old_keys.push(key@));
                proof {
                    assert forall|a: int, b: int| 0 <= a < b < self.key_seq().len() implies self.key_seq()[a] != self.key_seq()[b] by {
                        if b == old_keys.len() {
                            assert(self.key_seq()[a] == old_keys[a]);
                            assert(old_keys.contains(old_keys[a]));
                        }
                    }
                    assert forall|k: Seq<char>| #[trigger] self.count(k) == old_self.count(k) + if k == key@ { 1nat } else { 0nat } by {
                        if k == key@ {
                            lemma_no_dup_index(self.key_seq(), old_keys.len() as int);
                        } else if old_keys.contains(k) {
                            lemma_no_dup_index(old_keys, old_keys.index_of(k));
                            let j = old_keys.index_of(k);
                            assert(self.key_seq()[j] == k);
                            lemma_no_dup_index(self.key_seq(), j);
                        } else {
                            assert(!self.key_seq().contains(k)) by {
                                if self.key_seq().contains(k) {
                                    let j = choose|j: int| 0 <= j < self.key_seq().len() && self.key_seq()[j] == k;
                                    if j < old_keys.len() {
                                        assert(old_keys[j] == k);
                                    }
                                }
                            }
                        }
                    }
                }
            },
        }
    }

    /// The distinct keys with a positive count.
    pub closed spec fn keys(&self) -> Seq<Seq<char>> {
        self.key_seq()
    }

    pub proof fn lemma_keys(&self)
        requires
            self.wf(),
        ensures
            forall|k: Seq<char>| self.keys().contains(k) <==> self.count(k) > 0,
            self.keys().no_duplicates(),
    {
        assert forall|k: Seq<char>| self.keys().contains(k) <==> self.count(k) > 0 by {
            if self.key_seq().contains(k) {
                let j = self.key_seq().index_of(k);
                assert(self.counts@[j] > 0);
            }
        }
    }

    pub fn keys_len(&self) -> (n: usize)
        requires
            self.wf(),
        ensures
            n == self.keys().len(),
    {
        self.keys.len()
    }

    pub fn key_at(&self, i: usize) -> (r: &String)
        requires
            self.wf(),
            i < self.keys().len(),
        ensures
            r@ == self.keys()[i as int],
    {
        &self.keys[i]
    }
}

/// Counts keyed by an ordered pair of class names.
pub struct PairCountMap {
    firsts: Vec<String>,
    seconds: Vec<String>,
    counts: Vec<usize>,
}

impl PairCountMap {
    pub closed spec fn key_seq(&self) -> Seq<(Seq<char>, Seq<char>)> {
        Seq::new(self.firsts@.len(), |i: int| (self.firsts@[i]@, self.seconds@[i]@))
    }

    pub closed spec fn wf(&self) -> bool {
        &&& self.firsts@.len() == self.counts@.len()
        &&& self.seconds@.len() == self.counts@.len()
        &&& self.key_seq().no_duplicates()
        &&& forall|i: int| 0 <= i < self.counts@.len() ==> #[trigger] self.counts@[i] > 0
    }

    /// The count of `k` (zero for an absent key).
    pub closed spec fn count(&self, k: (Seq<char>, Seq<char>)) -> nat {
        if self.key_seq().contains(k) {
            self.counts@[self.key_seq().index_of(k)] as nat
        } else {
            0
        }
    }

    pub fn new() -> (r: Self)
        ensures
            r.wf(),
            forall|k: (Seq<char>, Seq<char>)| r.count(k) == 0,
    {
        let r = PairCountMap { firsts: Vec::new(), seconds: Vec::new(), counts: Vec::new() };
        assert(r.key_seq() =~= Seq::<(Seq<char>, Seq<char>)>::empty());
        r
    }

    fn find(&self, first: &str, second: &str) -> (r: Option<usize>)
        requires
            self.wf(),
        ensures
            r matches Some(i) ==> i < self.firsts@.len() && self.key_seq()[i as int] == (first@, second@),
            r is None ==> !self.key_seq().contains((first@, second@)),
    {
        let mut i: usize = 0;
        while i < self.firsts.len()
            invariant
                self.wf(),
                i <= self.firsts@.len(),
                forall|k: int| 0 <= k < i ==> self.key_seq()[k] != (first@, second@),
            decreases self.firsts.len() - i,
        {
            if str_eq(self.firsts[i].as_str(), first) && str_eq(self.seconds[i].as_str(), second) {
                return Some(i);
            }
            i = i + 1;
        }
        None
    }

    pub fn get(&self, first: &str, second: &str) -> (r: usize)
        requires
            self.wf(),
        ensures
            r == self.count((first@, second@)),
    {
        match self.find(first, second) {
            Some(i) => {
                proof {
                    lemma_no_dup_index(self.key_seq(), i as int);
                }
                self.counts[i]
            },
            None => 0,
        }
    }

    pub fn increment(&mut self, first: &str, second: &str)
        requires
            old(self).wf(),
            old(self).count((first@, second@)) < usize::MAX,
        ensures
            final(self).wf(),
            forall|k: (Seq<char>, Seq<char>)| #[trigger] final(self).count(k) == old(self).count(k) + if k == (first@, second@) { 1nat } else { 0nat },
    {
        let ghost old_self = *self;
        match self.find(first, second) {
            Some(i) => {
                proof {
                    lemma_no_dup_index(self.key_seq(), i as int);
                }
                let c = self.counts[i];
                self.counts.set(i, c + 1);
                assert(self.key_seq() == old_self.key_seq());
                assert forall|k: (Seq<char>, Seq<char>)| #[trigger] self.count(k) == old_self.count(k) + if k == (first@, second@) { 1nat } else { 0nat } by {
                    if self.key_seq().contains(k) {
                        lemma_no_dup_index(self.key_seq(), self.key_seq().index_of(k));
                    }
                }
            },
            None => {
                let ghost old_keys = self.key_seq();
                self.firsts.push(first.to_string());
                self.seconds.push(second.to_string());
                self.counts.push(1);
                assert(self.key_seq() =~= old_keys.push((first@, second@)));
                proof {
                    assert forall|a: int, b: int| 0 <= a < b < self.key_seq().len() implies self.key_seq()[a] != self.key_seq()[b] by {
                        if b == old_keys.len() {
                            assert(self.key_seq()[a] == old_keys[a]);
                            assert(old_keys.contains(old_keys[a]));
                        }
                    }
                    assert forall|k: (Seq<char>, Seq<char>)| #[trigger] self.count(k) == old_self.count(k) + if k == (first@, second@) { 1nat } else { 0nat } by {
                        if k == (first@, second@) {
                            lemma_no_dup_index(self.key_seq(), old_keys.len() as int);
                        } else if old_keys.contains(k) {
                            lemma_no_dup_index(old_keys, old_keys.index_of(k));
                            let j = old_keys.index_of(k);
                            assert(self.key_seq()[j] == k);
                            lemma_no_dup_index(self.key_seq(), j);
                        } else {
                            assert(!self.key_seq().contains(k)) by {
                                if self.key_seq().contains(k) {
                                    let j = choose|j: int| 0 <= j < self.key_seq().len() && self.key_seq()[j] == k;
                                    if j < old_keys.len() {
                                        assert(old_keys[j] == k);
                                    }
                                }
                            }
                        }
                    }
                }
            },
        }
    }

    /// The distinct pairs with a positive count.
    pub closed spec fn pairs(&self) -> Seq<(Seq<char>, Seq<char>)> {
        self.key_seq()
    }

    pub proof fn lemma_pairs(&self)
        requires
            self.wf(),
        ensures
            forall|k: (Seq<char>, Seq<char>)| self.pairs().contains(k) <==> self.count(k) > 0,
    {
        assert forall|k: (Seq<char>, Seq<char>)| self.pairs().contains(k) <==> self.count(k) > 0 by {
            if self.key_seq().contains(k) {
                let j = self.key_seq().index_of(k);
                assert(self.counts@[j] > 0);
            }
        }
    }

    pub fn pairs_len(&self) -> (n: usize)
        requires
            self.wf(),
        ensures
            n == self.pairs().len(),
    {
        self.firsts.len()
    }

    pub fn pair_at(&self, i: usize) -> (r: (&String, &String))
        requires
            self.wf(),
            i < self.pairs().len(),
        ensures
            (r.0@, r.1@) == self.pairs()[i as int],
    {
        (&self.firsts[i], &self.seconds[i])
    }
}

/// In a sequence without duplicates, `index_of` recovers every index.
pub proof fn lemma_no_dup_index<A>(s: Seq<A>, i: int)
    requires
        s.no_duplicates(),
        0 <= i < s.len(),
    ensures
        s.contains(s[i]),
        s.index_of(s[i]) == i,
{
    assert(s.contains(s[i]));
    let j = s.index_of(s[i]);
    assert(0 <= j < s.len() && s[j] == s[i]);
}

} // verus!

verus! {

/// A set of ordered pairs of class names.
pub struct PairSet {
    firsts: Vec<String>,
    seconds: Vec<String>,
}

impl PairSet {
    /// The members, without duplicates.
    pub closed spec fn pairs(&self) -> Seq<(Seq<char>, Seq<char>)> {
        Seq::new(self.firsts@.len(), |i: int| (self.firsts@[i]@, self.seconds@[i]@))
    }

    pub closed spec fn wf(&self) -> bool {
        &&& self.firsts@.len() == self.seconds@.len()
        &&& self.pairs().no_duplicates()
    }

    pub fn new() -> (r: Self)
        ensures
            r.wf(),
            r.pairs() == Seq::<(Seq<char>, Seq<char>)>::empty(),
    {
        let r = PairSet { firsts: Vec::new(), seconds: Vec::new() };
        assert(r.pairs() =~= Seq::<(Seq<char>, Seq<char>)>::empty());
        r
    }

    pub fn contains(&self, first: &str, second: &str) -> (r: bool)
        requires
            self.wf(),
        ensures
            r == self.pairs().contains((first@, second@)),
    {
        let mut i: usize = 0;
        while i < self.firsts.len()
            invariant
                self.wf(),
                i <= self.firsts@.len(),
                forall|k: int| 0 <= k < i ==> self.pairs()[k] != (first@, second@),
            decreases self.firsts.len() - i,
        {
            if str_eq(self.firsts[i].as_str(), first) && str_eq(self.seconds[i].as_str(), second) {
                assert(self.pairs()[i as int] == (first@, second@));
                return true;
            }
            i = i + 1;
        }
        false
    }

    pub fn insert(&mut self, first: &str, second: &str)
        requires
            old(self).wf(),
        ensures
            final(self).wf(),
            forall|p: (Seq<char>, Seq<char>)| #[trigger] final(self).pairs().contains(p) <==> (old(self).pairs().contains(p) || p == (first@, second@)),
    {
        if self.contains(first, second) {
            return;
        }
        let ghost old_pairs = self.pairs();
        self.firsts.push(first.to_string());
        self.seconds.push(second.to_string());
        assert(self.pairs() =~= old_pairs.push((first@, second@)));
        assert forall|a: int, b: int| 0 <= a < b < self.pairs().len() implies self.pairs()[a] != self.pairs()[b] by {
            if b == old_pairs.len() {
                assert(old_pairs.contains(old_pairs[a]));
            }
        }
        assert forall|p: (Seq<char>, Seq<char>)| #[trigger] self.pairs().contains(p) <==> (old_pairs.contains(p) || p == (first@, second@)) by {
            if self.pairs().contains(p) {
                let j = choose|j: int| 0 <= j < self.pairs().len() && self.pairs()[j] == p;
                if j < old_pairs.len() {
                    assert(old_pairs[j] == p);
                }
            }
            if old_pairs.contains(p) {
                let j = choose|j: int| 0 <= j < old_pairs.len() && old_pairs[j] == p;
                assert(self.pairs()[j] == p);
            }
            if p == (first@, second@) {
                assert(self.pairs()[old_pairs.len() as int] == p);
            }
        }
    }

    pub fn len(&self) -> (n: usize)
        requires
            self.wf(),
        ensures
            n == self.pairs().len(),
    {
        self.firsts.len()
    }

    pub fn pair_at(&self, i: usize) -> (r: (&String, &String))
        requires
            self.wf(),
            i < self.pairs().len(),
        ensures
            (r.0@, r.1@) == self.pairs()[i as int],
    {
        (&self.firsts[i], &self.seconds[i])
    }
}

} // verus!
