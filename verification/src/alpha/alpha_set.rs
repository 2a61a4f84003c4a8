//! A pair of class sets `(A, B)`: a candidate place of the alpha algorithm,
//! fed by the transitions of `A` and feeding those of `B`.
use vstd::prelude::*;
use crate::alpha::provider::AlphaRelationsProvider;
use crate::class_set::ClassSet;

verus! {

/// The classes joined by commas.
pub open spec fn joined(s: Seq<Seq<char>>) -> Seq<char>
    decreases s.len(),
{
    if s.len() == 0 {
        Seq::empty()
    } else if s.len() == 1 {
        s[0]
    } else {
        joined(s.drop_last()) + ","@ + s.last()
    }
}

/// Appends the members of `set`, separated by commas, to `repr`.
pub fn append_joined(repr: &mut String, set: &ClassSet)
    ensures
        final(repr)@ == old(repr)@ + joined(set@),
{
    let n = set.len();
    let mut i: usize = 0;
    assert(set@.take(0) =~= Seq::<Seq<char>>::empty());
    while i < n
        invariant
            n == set@.len(),
            i <= n,
            repr@ == old(repr)@ + joined(set@.take(i as int)),
        decreases n - i,
    {
        let ghost before = repr@;
        if i > 0 {
            repr.append(",");
        }
        repr.append(set.get(i).as_str());
        assert(set@.take(i + 1).drop_last() =~= set@.take(i as int));
        if i == 0 {
            assert(set@.take(1) =~= seq![set@[0]]);
            assert(joined(set@.take(0)) =~= Seq::<char>::empty());
            assert(repr@ =~= old(repr)@ + joined(set@.take(i + 1)));
        } else {
            assert(repr@ =~= old(repr)@ + joined(set@.take(i + 1)));
        }
        i = i + 1;
    }
    assert(set@.take(n as int) =~= set@);
}

/// `x` and `y` stand in the causal relation (when `causal`) or are unrelated.
pub open spec fn related<P: AlphaRelationsProvider>(provider: &P, x: Seq<char>, y: Seq<char>, causal: bool) -> bool {
    if causal {
        provider.causal(x, y)
    } else {
        provider.unrelated(x, y)
    }
}

/// All pairs drawn from `xs` and `ys` are related: causally when `causal`
/// holds, otherwise as unrelated.
pub open spec fn all_related<P: AlphaRelationsProvider>(
    provider: &P,
    xs: Seq<Seq<char>>,
    ys: Seq<Seq<char>>,
    causal: bool,
) -> bool {
    forall|x: Seq<char>, y: Seq<char>|
        xs.contains(x) && ys.contains(y) ==> #[trigger] related(provider, x, y, causal)
}

fn check_all_related<P: AlphaRelationsProvider>(provider: &P, xs: &ClassSet, ys: &ClassSet, causal: bool) -> (r: bool)
    requires
        provider.wf(),
    ensures
        r == all_related(provider, xs@, ys@, causal),
{
    let mut i: usize = 0;
    while i < xs.len()
        invariant
            provider.wf(),
            i <= xs@.len(),
            forall|k: int, y: Seq<char>| 0 <= k < i && ys@.contains(y) ==> #[trigger] related(provider, xs@[k], y, causal),
        decreases xs@.len() - i,
    {
        let x = xs.get(i);
        let mut j: usize = 0;
        while j < ys.len()
            invariant
                provider.wf(),
                i < xs@.len(),
                x@ == xs@[i as int],
                j <= ys@.len(),
                forall|m: int| 0 <= m < j ==> #[trigger] related(provider, x@, ys@[m], causal),
            decreases ys@.len() - j,
        {
            let y = ys.get(j);
            let ok = if causal {
                provider.is_in_causal_relation(x.as_str(), y.as_str())
            } else {
                provider.is_in_unrelated_relation(x.as_str(), y.as_str())
            };
            if !ok {
                assert(xs@.contains(x@) && ys@.contains(y@));
                assert(!related(provider, x@, y@, causal));
                return false;
            }
            j = j + 1;
        }
        assert forall|k: int, y: Seq<char>| 0 <= k < i + 1 && ys@.contains(y) implies #[trigger] related(provider, xs@[k], y, causal) by {
            if k == i {
                let m = choose|m: int| 0 <= m < ys@.len() && ys@[m] == y;
                assert(related(provider, x@, ys@[m], causal));
            }
        }
        i = i + 1;
    }
    assert forall|x: Seq<char>, y: Seq<char>| xs@.contains(x) && ys@.contains(y) implies #[trigger] related(provider, x, y, causal) by {
        let k = choose|k: int| 0 <= k < xs@.len() && xs@[k] == x;
        assert(related(provider, xs@[k], y, causal));
    }
    true
}

/// A candidate place `(A, B)`.
pub struct AlphaSet {
    left_classes: ClassSet,
    right_classes: ClassSet,
}

impl View for AlphaSet {
    type V = (Seq<Seq<char>>, Seq<Seq<char>>);

    closed spec fn view(&self) -> (Seq<Seq<char>>, Seq<Seq<char>>) {
        (self.left_classes@, self.right_classes@)
    }
}

/// A place `(A, B)` is an alpha set for a provider: everything in `A` causes
/// everything in `B`, and the members of `A` (of `B`) are pairwise unrelated.
pub open spec fn valid_alpha_set<P: AlphaRelationsProvider>(provider: &P, left: Seq<Seq<char>>, right: Seq<Seq<char>>) -> bool {
    &&& all_related(provider, left, right, true)
    &&& all_related(provider, left, left, false)
    &&& all_related(provider, right, right, false)
}

/// `x` is a member of `a` or of `b`.
pub open spec fn in_either(a: Seq<Seq<char>>, b: Seq<Seq<char>>, x: Seq<char>) -> bool {
    a.contains(x) || b.contains(x)
}

/// The pairwise union of two candidate places is an alpha set.
pub open spec fn extension_is_alpha_set<P: AlphaRelationsProvider>(
    provider: &P,
    s1: (Seq<Seq<char>>, Seq<Seq<char>>),
    s2: (Seq<Seq<char>>, Seq<Seq<char>>),
) -> bool {
    &&& forall|x: Seq<char>, y: Seq<char>|
        in_either(s1.0, s2.0, x) && in_either(s1.1, s2.1, y) ==> #[trigger] related(provider, x, y, true)
    &&& forall|x: Seq<char>, y: Seq<char>|
        in_either(s1.0, s2.0, x) && in_either(s1.0, s2.0, y) ==> #[trigger] related(provider, x, y, false)
    &&& forall|x: Seq<char>, y: Seq<char>|
        in_either(s1.1, s2.1, x) && in_either(s1.1, s2.1, y) ==> #[trigger] related(provider, x, y, false)
}

/// `a` and `b` hold the same members.
pub open spec fn same_members(a: Seq<Seq<char>>, b: Seq<Seq<char>>) -> bool {
    forall|x: Seq<char>| a.contains(x) <==> b.contains(x)
}

/// `x` is contained in `y` on both sides.
pub open spec fn full_subset(x: (Seq<Seq<char>>, Seq<Seq<char>>), y: (Seq<Seq<char>>, Seq<Seq<char>>)) -> bool {
    subset_of(x.0, y.0) && subset_of(x.1, y.1)
}

/// `x` and `y` hold the same classes on both sides.
pub open spec fn same_alpha_set(x: (Seq<Seq<char>>, Seq<Seq<char>>), y: (Seq<Seq<char>>, Seq<Seq<char>>)) -> bool {
    same_members(x.0, y.0) && same_members(x.1, y.1)
}

/// Every member of `a` is a member of `b`.
pub open spec fn subset_of(a: Seq<Seq<char>>, b: Seq<Seq<char>>) -> bool {
    forall|x: Seq<char>| a.contains(x) ==> b.contains(x)
}

impl AlphaSet {
    pub closed spec fn wf(&self) -> bool {
        self.left_classes.wf() && self.right_classes.wf()
    }

    pub proof fn lemma_no_duplicates(&self)
        requires
            self.wf(),
        ensures
            self.left().no_duplicates(),
            self.right().no_duplicates(),
    {
        crate::class_set::lemma_sorted_no_duplicates(self.left_classes@);
        crate::class_set::lemma_sorted_no_duplicates(self.right_classes@);
    }

    pub proof fn lemma_sorted(&self)
        requires
            self.wf(),
        ensures
            crate::class_set::strictly_sorted(self.left()),
            crate::class_set::strictly_sorted(self.right()),
    {
    }

    pub open spec fn left(&self) -> Seq<Seq<char>> {
        self@.0
    }

    pub open spec fn right(&self) -> Seq<Seq<char>> {
        self@.1
    }

    pub fn empty() -> (r: Self)
        ensures
            r.wf(),
            r.left() == Seq::<Seq<char>>::empty(),
            r.right() == Seq::<Seq<char>>::empty(),
    {
        AlphaSet { left_classes: ClassSet::new(), right_classes: ClassSet::new() }
    }

    /// `({left_class}, right_classes)`.
    pub fn new(left_class: String, right_classes: Vec<String>) -> (r: Self)
        ensures
            r.wf(),
            r.left() == seq![left_class@],
            forall|x: Seq<char>| r.right().contains(x) <==> crate::text::strings_view(right_classes@).contains(x),
    {
        let left = ClassSet::singleton(left_class);
        let mut right = ClassSet::new();
        let mut i: usize = 0;
        while i < right_classes.len()
            invariant
                i <= right_classes@.len(),
                right.wf(),
                forall|x: Seq<char>| right@.contains(x) <==> crate::text::strings_view(right_classes@).take(i as int).contains(x),
            decreases right_classes.len() - i,
        {
            right.insert(right_classes[i].clone());
            proof {
                let sv = crate::text::strings_view(right_classes@);
                assert forall|x: Seq<char>| right@.contains(x) <==> sv.take(i + 1).contains(x) by {
                    if sv.take(i + 1).contains(x) {
                        let k = choose|k: int| 0 <= k < i + 1 && #[trigger] sv.take(i + 1)[k] == x;
                        if k < i {
                            assert(sv.take(i as int)[k] == x);
                        }
                    }
                    if sv.take(i as int).contains(x) {
                        let k = choose|k: int| 0 <= k < i && #[trigger] sv.take(i as int)[k] == x;
                        assert(sv.take(i + 1)[k] == x);
                    }
                    if x == right_classes@[i as int]@ {
                        assert(sv.take(i + 1)[i as int] == x);
                    }
                }
            }
            i = i + 1;
        }
        assert(crate::text::strings_view(right_classes@).take(right_classes@.len() as int) =~= crate::text::strings_view(right_classes@));
        AlphaSet { left_classes: left, right_classes: right }
    }

    pub fn insert_left_class(&mut self, class: String)
        requires
            old(self).wf(),
        ensures
            final(self).wf(),
            final(self).right() == old(self).right(),
            forall|x: Seq<char>| final(self).left().contains(x) <==> (old(self).left().contains(x) || x == class@),
    {
        self.left_classes.insert(class);
    }

    pub fn insert_right_class(&mut self, class: String)
        requires
            old(self).wf(),
        ensures
            final(self).wf(),
            final(self).left() == old(self).left(),
            forall|x: Seq<char>| final(self).right().contains(x) <==> (old(self).right().contains(x) || x == class@),
    {
        self.right_classes.insert(class);
    }

    pub fn contains_left(&self, class: &str) -> (r: bool)
        requires
            self.wf(),
        ensures
            r == self.left().contains(class@),
    {
        self.left_classes.contains(class)
    }

    pub fn contains_right(&self, class: &str) -> (r: bool)
        requires
            self.wf(),
        ensures
            r == self.right().contains(class@),
    {
        self.right_classes.contains(class)
    }

    /// `A` is contained in the other set's `A`.
    pub fn is_left_subset(&self, other: &Self) -> (r: bool)
        requires
            other.wf(),
        ensures
            r == subset_of(self.left(), other.left()),
    {
        self.left_classes.is_subset(&other.left_classes)
    }

    /// `B` is contained in the other set's `B`.
    pub fn is_right_subset(&self, other: &Self) -> (r: bool)
        requires
            other.wf(),
        ensures
            r == subset_of(self.right(), other.right()),
    {
        self.right_classes.is_subset(&other.right_classes)
    }

    pub fn is_full_subset(&self, other: &Self) -> (r: bool)
        requires
            other.wf(),
        ensures
            r == (subset_of(self.left(), other.left()) && subset_of(self.right(), other.right())),
    {
        self.is_left_subset(other) && self.is_right_subset(other)
    }

    /// Both sets hold the same classes on each side.
    pub fn set_equals(&self, other: &Self) -> (r: bool)
        requires
            self.wf(),
            other.wf(),
        ensures
            r == (same_members(self.left(), other.left()) && same_members(self.right(), other.right())),
    {
        self.is_full_subset(other) && other.is_full_subset(self)
    }

    /// The set `A`.
    pub fn left_class_set(&self) -> (r: &ClassSet)
        requires
            self.wf(),
        ensures
            r.wf(),
            r@ == self.left(),
    {
        &self.left_classes
    }

    /// The set `B`.
    pub fn right_class_set(&self) -> (r: &ClassSet)
        requires
            self.wf(),
        ensures
            r.wf(),
            r@ == self.right(),
    {
        &self.right_classes
    }

    /// The classes of `A`, ascending.
    pub fn left_classes(&self) -> (r: Vec<String>)
        ensures
            crate::text::strings_view(r@) == self.left(),
    {
        self.left_classes.to_vec()
    }

    /// The classes of `B`, ascending.
    pub fn right_classes(&self) -> (r: Vec<String>)
        ensures
            crate::text::strings_view(r@) == self.right(),
    {
        self.right_classes.to_vec()
    }

    /// Whether the union of the two sets is itself an alpha set.
    pub fn can_extend<P: AlphaRelationsProvider>(&self, other: &Self, provider: &P) -> (r: bool)
        requires
            self.wf(),
            other.wf(),
            provider.wf(),
        ensures
            r == extension_is_alpha_set(provider, self@, other@),
    {
        let u = self.extend(other);
        let c1 = check_all_related(provider, &u.left_classes, &u.right_classes, true);
        let c2 = check_all_related(provider, &u.left_classes, &u.left_classes, false);
        let c3 = check_all_related(provider, &u.right_classes, &u.right_classes, false);
        proof {
            let s1 = self@;
            let s2 = other@;
            assert forall|x: Seq<char>| #[trigger] u.left().contains(x) <==> in_either(s1.0, s2.0, x) by {}
            assert forall|x: Seq<char>| #[trigger] u.right().contains(x) <==> in_either(s1.1, s2.1, x) by {}
            if c1 && c2 && c3 {
                assert forall|x: Seq<char>, y: Seq<char>| in_either(s1.0, s2.0, x) && in_either(s1.1, s2.1, y) implies #[trigger] related(provider, x, y, true) by {
                    assert(u.left().contains(x) && u.right().contains(y));
                }
                assert forall|x: Seq<char>, y: Seq<char>| in_either(s1.0, s2.0, x) && in_either(s1.0, s2.0, y) implies #[trigger] related(provider, x, y, false) by {
                    assert(u.left().contains(x) && u.left().contains(y));
                }
                assert forall|x: Seq<char>, y: Seq<char>| in_either(s1.1, s2.1, x) && in_either(s1.1, s2.1, y) implies #[trigger] related(provider, x, y, false) by {
                    assert(u.right().contains(x) && u.right().contains(y));
                }
            }
            if extension_is_alpha_set(provider, s1, s2) {
                assert(all_related(provider, u.left(), u.right(), true));
                assert(all_related(provider, u.left(), u.left(), false));
                assert(all_related(provider, u.right(), u.right(), false));
            }
        }
        c1 && c2 && c3
    }

    /// The pairwise union `(A ∪ A', B ∪ B')`.
    pub fn extend(&self, other: &Self) -> (r: Self)
        requires
            self.wf(),
            other.wf(),
        ensures
            r.wf(),
            forall|x: Seq<char>| r.left().contains(x) <==> (self.left().contains(x) || other.left().contains(x)),
            forall|x: Seq<char>| r.right().contains(x) <==> (self.right().contains(x) || other.right().contains(x)),
    {
        AlphaSet {
            left_classes: self.left_classes.union(&other.left_classes),
            right_classes: self.right_classes.union(&other.right_classes),
        }
    }

    pub fn clone_alpha_set(&self) -> (r: Self)
        requires
            self.wf(),
        ensures
            r.wf(),
            r@ == self@,
    {
        AlphaSet { left_classes: self.left_classes.clone_set(), right_classes: self.right_classes.clone_set() }
    }

    /// The text form `[{a,b} {c}]`, members ascending; it names the place.
    pub fn to_string(&self) -> (r: String)
        ensures
            r@ == "[{"@ + joined(self.left()) + "} {"@ + joined(self.right()) + "}]"@,
    {
        let mut repr = String::from_str("[{");
        append_joined(&mut repr, &self.left_classes);
        repr.append("} {");
        append_joined(&mut repr, &self.right_classes);
        repr.append("}]");
        repr
    }
}

} // verus!
