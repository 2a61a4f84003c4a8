//! A set of event-class names kept in ascending lexicographic order, the
//! ordered set that the alpha algorithms build their places from.
use vstd::prelude::*;
use crate::text::{strings_view, seq_lt, str_eq, str_lt, lemma_seq_lt_irreflexive, lemma_seq_lt_total, lemma_seq_lt_transitive};

verus! {

/// Strictly ascending character sequences (hence without duplicates).
pub open spec fn strictly_sorted(s: Seq<Seq<char>>) -> bool {
    forall|i: int, j: int| 0 <= i < j < s.len() ==> seq_lt(#[trigger] s[i], #[trigger] s[j])
}

pub proof fn lemma_sorted_no_duplicates(s: Seq<Seq<char>>)
    requires
        strictly_sorted(s),
    ensures
        s.no_duplicates(),
{
    assert forall|i: int, j: int| 0 <= i < s.len() && 0 <= j < s.len() && i != j implies s[i] != s[j] by {
        if i < j {
            if s[i] == s[j] {
                lemma_seq_lt_irreflexive(s[i]);
            }
        } else {
            if s[i] == s[j] {
                lemma_seq_lt_irreflexive(s[i]);
            }
        }
    }
}

/// An ordered set of class names.
pub struct ClassSet {
    items: Vec<String>,
}

impl View for ClassSet {
    type V = Seq<Seq<char>>;

    closed spec fn view(&self) -> Seq<Seq<char>> {
        strings_view(self.items@)
    }
}

impl ClassSet {
    /// Well-formedness: the members are strictly ascending.
    pub open spec fn wf(&self) -> bool {
        strictly_sorted(self@)
    }

    /// The members, as a mathematical set.
    pub open spec fn members(&self) -> Set<Seq<char>> {
        self@.to_set()
    }

    pub fn new() -> (r: Self)
        ensures
            r.wf(),
            r@ == Seq::<Seq<char>>::empty(),
    {
        let r = ClassSet { items: Vec::new() };
        assert(r@ =~= Seq::<Seq<char>>::empty());
        r
    }

    pub fn singleton(item: String) -> (r: Self)
        ensures
            r.wf(),
            r@ == seq![item@],
    {
        let mut items = Vec::new();
        items.push(item);
        let r = ClassSet { items };
        assert(r@ =~= seq![item@]);
        r
    }

    pub fn len(&self) -> (n: usize)
        ensures
            n == self@.len(),
    {
        self.items.len()
    }

    pub fn get(&self, i: usize) -> (r: &String)
        requires
            i < self@.len(),
        ensures
            r@ == self@[i as int],
    {
        &self.items[i]
    }


    /// A copy of the members in ascending order.
    pub fn to_vec(&self) -> (r: Vec<String>)
        ensures
        strings_view(r@) == self@,
    {
        let mut r: Vec<String> = Vec::new();
        let mut i: usize = 0;
        while i < self.items.len()
            invariant
                i <= self.items@.len(),
                r@.len() == i,
                forall|k: int| 0 <= k < i ==> (#[trigger] r@[k])@ == self.items@[k]@,
            decreases self.items.len() - i,
        {
            r.push(self.items[i].clone());
            i = i + 1;
        }
                assert(strings_view(r@) =~= self@);
        r
    }

    pub fn clone_set(&self) -> (r: Self)
        requires
            self.wf(),
        ensures
            r.wf(),
            r@ == self@,
    {
        let items = self.to_vec();
        let r = ClassSet { items };
        assert(r@ =~= self@);
        r
    }

    /// Whether every member of `self` is a member of `other`.
    pub fn is_subset(&self, other: &ClassSet) -> (r: bool)
        requires
            other.wf(),
        ensures
            r == (forall|x: Seq<char>| self@.contains(x) ==> other@.contains(x)),
    {
        let mut i: usize = 0;
        while i < self.items.len()
            invariant
                other.wf(),
                i <= self@.len(),
                self@.len() == self.items@.len(),
                forall|k: int| 0 <= k < i ==> other@.contains(#[trigger] self@[k]),
            decreases self.items.len() - i,
        {
            if !other.contains(self.items[i].as_str()) {
                assert(self@.contains(self@[i as int]));
                return false;
            }
            i = i + 1;
        }
        assert forall|x: Seq<char>| self@.contains(x) implies other@.contains(x) by {
            let k = choose|k: int| 0 <= k < self@.len() && self@[k] == x;
            assert(other@.contains(self@[k]));
        }
        true
    }

    /// The union of two sets.
    pub fn union(&self, other: &ClassSet) -> (r: Self)
        requires
            self.wf(),
            other.wf(),
        ensures
            r.wf(),
            forall|x: Seq<char>| r@.contains(x) <==> (self@.contains(x) || other@.contains(x)),
    {
        let mut r = self.clone_set();
        let mut i: usize = 0;
        while i < other.items.len()
            invariant
                r.wf(),
                i <= other@.len(),
                other@.len() == other.items@.len(),
                forall|x: Seq<char>| r@.contains(x) <==> (self@.contains(x) || exists|k: int| 0 <= k < i && other@[k] == x),
            decreases other.items.len() - i,
        {
            r.insert(other.items[i].clone());
            proof {
                assert forall|x: Seq<char>| r@.contains(x) <==> (self@.contains(x) || exists|k: int| 0 <= k < i + 1 && other@[k] == x) by {
                    if x == other@[i as int] {
                        assert(exists|k: int| 0 <= k < i + 1 && other@[k] == x);
                    }
                    if exists|k: int| 0 <= k < i + 1 && other@[k] == x {
                        let k = choose|k: int| 0 <= k < i + 1 && other@[k] == x;
                        if k < i {
                        }
                    }
                }
            }
            i = i + 1;
        }
        r
    }

    /// Position of the first member that is not below `item`.
    fn lower_bound(&self, item: &str) -> (i: usize)
        ensures
            i <= self@.len(),
            forall|k: int| 0 <= k < i ==> seq_lt(#[trigger] self@[k], item@),
            i < self@.len() ==> !seq_lt(self@[i as int], item@),
    {
        let mut i: usize = 0;
        while i < self.items.len()
            invariant
                i <= self@.len(),
                self@.len() == self.items@.len(),
                forall|k: int| 0 <= k < i ==> seq_lt(#[trigger] self@[k], item@),
            decreases self.items.len() - i,
        {
            if !str_lt(self.items[i].as_str(), item) {
                return i;
            }
            i = i + 1;
        }
        i
    }

    pub fn contains(&self, item: &str) -> (r: bool)
        requires
            self.wf(),
        ensures
            r == self@.contains(item@),
    {
        let i = self.lower_bound(item);
        if i < self.items.len() && str_eq(self.items[i].as_str(), item) {
            assert(self@[i as int] == item@);
            return true;
        }
        proof {
            if self@.contains(item@) {
                let k = choose|k: int| 0 <= k < self@.len() && self@[k] == item@;
                if k < i {
                    lemma_seq_lt_irreflexive(item@);
                } else if k > i {
                    assert(seq_lt(self@[i as int], self@[k]));
                    lemma_seq_lt_total(self@[i as int], item@);
                } else {
                }
            }
        }
        false
    }

    pub fn insert(&mut self, item: String)
        requires
            old(self).wf(),
        ensures
            final(self).wf(),
            forall|x: Seq<char>| final(self)@.contains(x) <==> (old(self)@.contains(x) || x == item@),
    {
        let i = self.lower_bound(item.as_str());
        if i < self.items.len() && str_eq(self.items[i].as_str(), item.as_str()) {
            assert(self@[i as int] == item@);
            assert(old(self)@.contains(item@));
            return;
        }
        let ghost old_view = self@;
        assert(old_view == old(self)@);
        proof {
            if i < old_view.len() {
                lemma_seq_lt_total(old_view[i as int], item@);
            }
            assert forall|k: int| i <= k < old_view.len() implies seq_lt(item@, #[trigger] old_view[k]) by {
                if k > i {
                    lemma_seq_lt_transitive(item@, old_view[i as int], old_view[k]);
                }
            }
        }
        let ghost new_view = old_view.insert(i as int, item@);
        assert(strictly_sorted(new_view)) by {
            assert forall|a: int, b: int| 0 <= a < b < new_view.len() implies seq_lt(
                #[trigger] new_view[a],
                #[trigger] new_view[b],
            ) by {
                if b < i {
                    assert(seq_lt(old_view[a], old_view[b]));
                } else if b == i {
                    assert(seq_lt(old_view[a], item@));
                } else if a < i {
                    assert(seq_lt(old_view[a], item@));
                    assert(seq_lt(item@, old_view[b - 1]));
                    lemma_seq_lt_transitive(old_view[a], item@, old_view[b - 1]);
                } else if a == i {
                    assert(seq_lt(item@, old_view[b - 1]));
                } else {
                    assert(seq_lt(old_view[a - 1], old_view[b - 1]));
                }
            }
        }
        self.items.insert(i, item);
        assert(self@ =~= new_view);
        assert(self@ == new_view);
        assert forall|x: Seq<char>| self@.contains(x) <==> (old_view.contains(x) || x == item@) by {
            if self@.contains(x) {
                let k = choose|k: int| 0 <= k < self@.len() && self@[k] == x;
                if k < i {
                    assert(old_view[k] == x);
                } else if k > i {
                    assert(old_view[k - 1] == x);
                }
            }
            if old_view.contains(x) {
                let k = choose|k: int| 0 <= k < old_view.len() && old_view[k] == x;
                if k < i {
                    assert(self@[k] == x);
                } else {
                    assert(self@[k + 1] == x);
                }
            }
            if x == item@ {
                assert(self@[i as int] == x);
            }
        }
        assert(forall|x: Seq<char>| self@.contains(x) <==> (old(self)@.contains(x) || x == item@));
    }
}

} // verus!

verus! {

/// Between sequences without duplicates, a subset is no longer, and a
/// proper subset is strictly shorter.
pub proof fn lemma_subset_len(a: Seq<Seq<char>>, b: Seq<Seq<char>>)
    requires
        a.no_duplicates(),
        b.no_duplicates(),
        forall|x: Seq<char>| a.contains(x) ==> b.contains(x),
    ensures
        a.len() <= b.len(),
        a.len() == b.len() ==> forall|x: Seq<char>| b.contains(x) ==> a.contains(x),
{
    vstd::seq_lib::seq_to_set_is_finite(a);
    vstd::seq_lib::seq_to_set_is_finite(b);
    a.unique_seq_to_set();
    b.unique_seq_to_set();
    assert(a.to_set().subset_of(b.to_set()));
    vstd::set_lib::lemma_len_subset(a.to_set(), b.to_set());
    if a.len() == b.len() {
        vstd::set_lib::lemma_subset_equality(a.to_set(), b.to_set());
        assert forall|x: Seq<char>| b.contains(x) implies a.contains(x) by {
            assert(b.to_set().contains(x));
        }
    }
}

} // verus!
