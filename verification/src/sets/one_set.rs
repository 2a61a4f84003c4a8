//! A set of identifiers kept in ascending order.
use vstd::prelude::*;
use std::collections::BTreeSet;

verus! {

broadcast use {vstd::std_specs::btree::group_btree_axioms, vstd::laws_cmp::group_laws_cmp, vstd::seq_lib::group_seq_properties};

/// A set of `u64` values.
pub struct OneSet {
    set: BTreeSet<u64>,
}

impl View for OneSet {
    type V = Set<u64>;

    closed spec fn view(&self) -> Set<u64> {
        self.set@
    }
}

/// Adds every member of `from` to `to`.
pub fn add_all(to: &mut BTreeSet<u64>, from: &BTreeSet<u64>)
    ensures
        final(to)@ == old(to)@.union(from@),
{
    let ghost start = to@;
    for x in it: from.iter()
        invariant
            it.seq().unref().to_set() == from@,
            to@ == start.union(it.seq().take(it.index() as int).unref().to_set()),
            it.index() == it.seq().len() ==> to@ == start.union(from@),
    {
        let ghost i = it.index();
        assert(*x == it.seq()[i as int]);
        to.insert(*x);
        assert(it.seq().take(i + 1).unref() =~= it.seq().take(i as int).unref().push(*x));
        assert(to@ =~= start.union(it.seq().take(i + 1).unref().to_set()));
        assert(i + 1 == it.seq().len() ==> it.seq().take(i + 1) =~= it.seq());
    }
}

/// Puts `x` into the ascending `r`, unless it is there already.
fn insert_ascending(r: &mut Vec<u64>, x: u64)
    requires
        forall|i: int, j: int| 0 <= i < j < old(r)@.len() ==> old(r)@[i] < old(r)@[j],
    ensures
        final(r)@.to_set() == old(r)@.to_set().insert(x),
        forall|i: int, j: int| 0 <= i < j < final(r)@.len() ==> final(r)@[i] < final(r)@[j],
{
    let mut j: usize = 0;
    while j < r.len() && r[j] < x
        invariant
            j <= r@.len(),
            r@ == old(r)@,
            forall|k: int| 0 <= k < j ==> r@[k] < x,
        decreases r.len() - j,
    {
        j = j + 1;
    }
    if j < r.len() && r[j] == x {
        assert(r@.to_set() =~= old(r)@.to_set().insert(x));
        return;
    }
    let ghost before = r@;
    r.insert(j, x);
    proof {
        assert(r@ == before.insert(j as int, x));
        assert forall|a: int, b: int| 0 <= a < b < r@.len() implies r@[a] < r@[b] by {
            if b < j {
            } else if b == j {
                assert(r@[a] == before[a]);
            } else if a < j {
                assert(r@[a] == before[a] && r@[b] == before[b - 1]);
            } else if a == j {
                assert(r@[b] == before[b - 1]);
                assert(before[j as int] > x);
                assert(before[j as int] <= before[b - 1]);
            } else {
                assert(r@[a] == before[a - 1] && r@[b] == before[b - 1]);
            }
        }
        assert forall|y: u64| r@.to_set().contains(y) <==> before.to_set().insert(x).contains(y) by {
            if r@.contains(y) {
                let k = choose|k: int| 0 <= k < r@.len() && r@[k] == y;
                if k < j {
                    assert(before[k] == y);
                } else if k > j {
                    assert(before[k - 1] == y);
                }
            }
            if before.contains(y) {
                let k = choose|k: int| 0 <= k < before.len() && before[k] == y;
                if k < j {
                    assert(r@[k] == y);
                } else {
                    assert(r@[k + 1] == y);
                }
            }
        }
        assert(r@.to_set() =~= before.to_set().insert(x));
    }
}

/// The members of `set`, ascending.
pub fn ascending_members(set: &BTreeSet<u64>) -> (r: Vec<u64>)
    ensures
        r@.to_set() == set@,
        forall|i: int, j: int| 0 <= i < j < r@.len() ==> r@[i] < r@[j],
{
    let mut r: Vec<u64> = Vec::new();
    for x in it: set.iter()
        invariant
            it.seq().unref().to_set() == set@,
            r@.to_set() == it.seq().take(it.index() as int).unref().to_set(),
            it.index() == it.seq().len() ==> r@.to_set() == set@,
            forall|i: int, j: int| 0 <= i < j < r@.len() ==> r@[i] < r@[j],
    {
        let ghost i = it.index();
        assert(*x == it.seq()[i as int]);
        insert_ascending(&mut r, *x);
        proof {
            assert(it.seq().take(i + 1).unref() =~= it.seq().take(i as int).unref().push(*x));
            assert(r@.to_set() =~= it.seq().take(i + 1).unref().to_set());
            assert(i + 1 == it.seq().len() ==> it.seq().take(i + 1) =~= it.seq());
        }
    }
    r
}

/// Whether every member of `a` is a member of `b`.
pub fn is_subset(a: &BTreeSet<u64>, b: &BTreeSet<u64>) -> (r: bool)
    ensures
        r == a@.subset_of(b@),
{
    for x in it: a.iter()
        invariant
            it.seq().unref().to_set() == a@,
            forall|k: int| 0 <= k < it.index() ==> b@.contains(*#[trigger] it.seq()[k]),
    {
        let ghost i = it.index();
        assert(*x == it.seq()[i as int]);
        if !b.contains(x) {
            assert(a@.contains(*x)) by {
                assert(it.seq().unref()[i as int] == *x);
            }
            return false;
        }
    }
    proof {
        assert forall|y: u64| a@.contains(y) implies b@.contains(y) by {
        }
    }
    true
}

impl OneSet {
    pub fn empty() -> (r: Self)
        ensures
            r@ == Set::<u64>::empty(),
    {
        OneSet { set: BTreeSet::new() }
    }

    pub fn new(el: u64) -> (r: Self)
        ensures
            r@ == set![el],
    {
        let mut set = BTreeSet::new();
        set.insert(el);
        let r = OneSet { set };
        assert(r@ =~= set![el]);
        r
    }

    pub fn new_two_elements(first: u64, second: u64) -> (r: Self)
        ensures
            r@ == set![first, second],
    {
        let mut set = BTreeSet::new();
        set.insert(first);
        set.insert(second);
        let r = OneSet { set };
        assert(r@ =~= set![first, second]);
        r
    }

    /// The union of the two sets.
    pub fn merge(&self, other: &Self) -> (r: Self)
        ensures
            r@ == self@.union(other@),
    {
        let mut set = self.set.clone();
        add_all(&mut set, &other.set);
        OneSet { set }
    }

    pub fn set(&self) -> (r: &BTreeSet<u64>)
        ensures
            r@ == self@,
    {
        &self.set
    }

    pub fn insert(&mut self, item: u64)
        ensures
            final(self)@ == old(self)@.insert(item),
    {
        self.set.insert(item);
    }
}

} // verus!
