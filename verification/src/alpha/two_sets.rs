//! A pair of sets of identifiers, compared and merged side by side.
use vstd::prelude::*;
use std::collections::BTreeSet;
use crate::sets::one_set::{add_all, ascending_members, is_subset};
use crate::alpha::alpha_set::joined;
use crate::pnml::{decimal, decimal_string};

verus! {

broadcast use {vstd::std_specs::btree::group_btree_axioms, vstd::laws_cmp::group_laws_cmp};

pub struct TwoSets {
    first_set: BTreeSet<u64>,
    second_set: BTreeSet<u64>,
}

impl View for TwoSets {
    type V = (Set<u64>, Set<u64>);

    closed spec fn view(&self) -> (Set<u64>, Set<u64>) {
        (self.first_set@, self.second_set@)
    }
}

impl TwoSets {
    pub fn new(first_set: BTreeSet<u64>, second_set: BTreeSet<u64>) -> (r: Self)
        ensures
            r@ == (first_set@, second_set@),
    {
        TwoSets { first_set, second_set }
    }

    /// `({first}, {second})`.
    pub fn new_one_element(first: u64, second: u64) -> (r: Self)
        ensures
            r@ == (set![first], set![second]),
    {
        let mut first_set = BTreeSet::new();
        first_set.insert(first);
        let mut second_set = BTreeSet::new();
        second_set.insert(second);
        let r = TwoSets { first_set, second_set };
        assert(r@.0 =~= set![first]);
        assert(r@.1 =~= set![second]);
        r
    }

    /// Both sides are contained in the other pair's sides.
    pub fn is_full_subset(&self, other: &Self) -> (r: bool)
        ensures
            r == (self@.0.subset_of(other@.0) && self@.1.subset_of(other@.1)),
    {
        is_subset(&self.first_set, &other.first_set) && is_subset(&self.second_set, &other.second_set)
    }

    /// The side-by-side union.
    pub fn merge(&self, other: &TwoSets) -> (r: Self)
        ensures
            r@ == (self@.0.union(other@.0), self@.1.union(other@.1)),
    {
        let mut first_set = self.first_set.clone();
        add_all(&mut first_set, &other.first_set);
        let mut second_set = self.second_set.clone();
        add_all(&mut second_set, &other.second_set);
        TwoSets { first_set, second_set }
    }

    pub fn first_set(&self) -> (r: &BTreeSet<u64>)
        ensures
            r@ == self@.0,
    {
        &self.first_set
    }

    pub fn second_set(&self) -> (r: &BTreeSet<u64>)
        ensures
            r@ == self@.1,
    {
        &self.second_set
    }
}

/// The numbers in decimal, joined by commas.
pub open spec fn numbers_text(s: Seq<u64>) -> Seq<char> {
    joined(s.map_values(|x: u64| decimal(x)))
}

/// The numbers are ascending.
pub open spec fn ascending(s: Seq<u64>) -> bool {
    forall|i: int, j: int| 0 <= i < j < s.len() ==> s[i] < s[j]
}

/// Appends the numbers of `v`, in decimal and separated by commas, to `repr`.
fn append_numbers(repr: &mut String, v: &Vec<u64>)
    ensures
        final(repr)@ == old(repr)@ + numbers_text(v@),
{
    let ghost texts = v@.map_values(|x: u64| decimal(x));
    let mut i: usize = 0;
    while i < v.len()
        invariant
            i <= v@.len(),
            texts == v@.map_values(|x: u64| decimal(x)),
            repr@ == old(repr)@ + joined(texts.take(i as int)),
        decreases v.len() - i,
    {
        if i > 0 {
            repr.append(",");
        }
        let number = decimal_string(v[i]);
        repr.append(number.as_str());
        assert(texts.take(i + 1).drop_last() =~= texts.take(i as int));
        if i == 0 {
            assert(texts.take(1) =~= seq![texts[0]]);
            assert(joined(texts.take(0)) =~= Seq::<char>::empty());
        }
        assert(repr@ =~= old(repr)@ + joined(texts.take(i + 1)));
        i = i + 1;
    }
    assert(texts.take(texts.len() as int) =~= texts);
}

impl TwoSets {
    /// The text form `({1,2}, {3})`, members ascending.
    pub fn to_string(&self) -> (r: String)
        ensures
            exists|a: Seq<u64>, b: Seq<u64>| #[trigger] ascending(a) && #[trigger] ascending(b) && a.to_set() == self@.0
                && b.to_set() == self@.1 && r@ == "({"@ + numbers_text(a) + "}, {"@ + numbers_text(b) + "})"@,
    {
        let first = ascending_members(&self.first_set);
        let second = ascending_members(&self.second_set);
        let mut repr = String::from_str("({");
        append_numbers(&mut repr, &first);
        repr.append("}, {");
        append_numbers(&mut repr, &second);
        repr.append("})");
        assert(ascending(first@) && ascending(second@));
        repr
    }
}

} // verus!
