//! Building blocks of alpha++ for non-free-choice constructs: triples around
//! one-length loops, alpha sets extended by indirect dependencies, pairs of
//! the w3 relation, and the transitive closure used to reduce that relation.
use vstd::prelude::*;
use crate::alpha::alpha_plus_nfc_provider::AlphaPlusNfcRelationsProvider;
use crate::alpha::alpha_set::{AlphaSet, append_joined, full_subset, joined, subset_of};
use crate::class_set::ClassSet;
use crate::count_map::PairSet;

verus! {

/// The conditions alpha++ puts on `(a, b)` around a one-length loop `c`.
pub open spec fn triple_ok(p: &AlphaPlusNfcRelationsProvider, a: Seq<char>, b: Seq<char>, c: Seq<char>) -> bool {
    &&& p.direct(a, c)
    &&& !p.triangle(c, a)
    &&& p.direct(c, b)
    &&& !p.triangle(c, b)
    &&& !p.parallel(a, b)
    &&& p.unrelated(a, a)
    &&& p.unrelated(b, b)
}

/// Every choice of one class from each side satisfies `triple_ok`.
pub open spec fn valid_triple(p: &AlphaPlusNfcRelationsProvider, a: Seq<Seq<char>>, b: Seq<Seq<char>>, c: Seq<Seq<char>>) -> bool {
    forall|x: Seq<char>, y: Seq<char>, z: Seq<char>| a.contains(x) && b.contains(y) && c.contains(z) ==> #[trigger] triple_ok(p, x, y, z)
}

fn triple_ok_exec(p: &AlphaPlusNfcRelationsProvider, a: &str, b: &str, c: &str) -> (r: bool)
    requires
        p.wf(),
    ensures
        r == triple_ok(p, a@, b@, c@),
{
    p.is_in_direct_relation(a, c) && !p.is_in_triangle_relation(c, a) && p.is_in_direct_relation(c, b)
        && !p.is_in_triangle_relation(c, b) && !p.is_in_parallel_relation(a, b) && p.is_in_unrelated_relation(a, a)
        && p.is_in_unrelated_relation(b, b)
}

/// A triple `(A, B, C)` of class sets.
pub struct AlphaPlusPlusNfcTriple {
    a_classes: ClassSet,
    b_classes: ClassSet,
    c_classes: ClassSet,
}

impl View for AlphaPlusPlusNfcTriple {
    type V = (Seq<Seq<char>>, Seq<Seq<char>>, Seq<Seq<char>>);

    closed spec fn view(&self) -> (Seq<Seq<char>>, Seq<Seq<char>>, Seq<Seq<char>>) {
        (self.a_classes@, self.b_classes@, self.c_classes@)
    }
}

impl AlphaPlusPlusNfcTriple {
    pub closed spec fn wf(&self) -> bool {
        self.a_classes.wf() && self.b_classes.wf() && self.c_classes.wf()
    }

    /// The text form `({a,b}, {c}, {d})`, members ascending.
    pub fn to_string(&self) -> (r: String)
        ensures
            r@ == "({"@ + joined(self@.0) + "}, {"@ + joined(self@.1) + "}, {"@ + joined(self@.2) + "})"@,
    {
        let mut repr = String::from_str("({");
        append_joined(&mut repr, &self.a_classes);
        repr.append("}, {");
        append_joined(&mut repr, &self.b_classes);
        repr.append("}, {");
        append_joined(&mut repr, &self.c_classes);
        repr.append("})");
        repr
    }

    /// `({a}, {b}, {c})`.
    pub fn new(a_class: String, b_class: String, c_class: String) -> (r: Self)
        ensures
            r.wf(),
            r@ == (seq![a_class@], seq![b_class@], seq![c_class@]),
    {
        AlphaPlusPlusNfcTriple {
            a_classes: ClassSet::singleton(a_class),
            b_classes: ClassSet::singleton(b_class),
            c_classes: ClassSet::singleton(c_class),
        }
    }

    /// `({a}, {b}, {c})` when it is valid.
    pub fn try_new(a_class: String, b_class: String, c_class: String, provider: &AlphaPlusNfcRelationsProvider) -> (r: Option<Self>)
        requires
            provider.wf(),
        ensures
            match r {
                Some(t) => t.wf() && t@ == (seq![a_class@], seq![b_class@], seq![c_class@]),
                None => true,
            },
            r is Some <==> triple_ok(provider, a_class@, b_class@, c_class@),
    {
        let candidate = Self::new(a_class, b_class, c_class);
        proof {
            let x = candidate@;
            if !triple_ok(provider, a_class@, b_class@, c_class@) {
                assert(x.0[0] == a_class@ && x.1[0] == b_class@ && x.2[0] == c_class@);
                assert(x.0.contains(a_class@) && x.1.contains(b_class@) && x.2.contains(c_class@));
            } else {
                assert forall|p: Seq<char>, q: Seq<char>, s: Seq<char>| x.0.contains(p) && x.1.contains(q) && x.2.contains(s)
                    implies #[trigger] triple_ok(provider, p, q, s) by {
                    assert(x.0[0] == p && x.1[0] == q && x.2[0] == s);
                }
            }
        }
        if candidate.valid(provider) {
            Some(candidate)
        } else {
            None
        }
    }

    /// The side-by-side union of two triples, when it is valid.
    pub fn try_merge(first: &Self, second: &Self, provider: &AlphaPlusNfcRelationsProvider) -> (r: Option<Self>)
        requires
            provider.wf(),
            first.wf(),
            second.wf(),
        ensures
            match r {
                Some(t) => t.wf() && valid_triple(provider, t@.0, t@.1, t@.2)
                    && (forall|x: Seq<char>| t@.0.contains(x) <==> (first@.0.contains(x) || second@.0.contains(x)))
                    && (forall|x: Seq<char>| t@.1.contains(x) <==> (first@.1.contains(x) || second@.1.contains(x)))
                    && (forall|x: Seq<char>| t@.2.contains(x) <==> (first@.2.contains(x) || second@.2.contains(x))),
                None => !forall|x: Seq<char>, y: Seq<char>, z: Seq<char>|
                    (first@.0.contains(x) || second@.0.contains(x)) && (first@.1.contains(y) || second@.1.contains(y))
                        && (first@.2.contains(z) || second@.2.contains(z)) ==> #[trigger] triple_ok(provider, x, y, z),
            },
    {
        let new_triple = AlphaPlusPlusNfcTriple {
            a_classes: first.a_classes.union(&second.a_classes),
            b_classes: first.b_classes.union(&second.b_classes),
            c_classes: first.c_classes.union(&second.c_classes),
        };
        if new_triple.valid(provider) {
            Some(new_triple)
        } else {
            proof {
                let (x, y, z) = choose|x: Seq<char>, y: Seq<char>, z: Seq<char>|
                    !(new_triple@.0.contains(x) && new_triple@.1.contains(y) && new_triple@.2.contains(z) ==> #[trigger] triple_ok(provider, x, y, z));
                assert((first@.0.contains(x) || second@.0.contains(x)) && (first@.1.contains(y) || second@.1.contains(y))
                    && (first@.2.contains(z) || second@.2.contains(z)) && !triple_ok(provider, x, y, z));
            }
            None
        }
    }

    /// Every choice of one class from each side satisfies `triple_ok`.
    pub fn valid(&self, provider: &AlphaPlusNfcRelationsProvider) -> (r: bool)
        requires
            provider.wf(),
        ensures
            r == valid_triple(provider, self@.0, self@.1, self@.2),
    {
        let ghost (av, bv, cv) = self@;
        let mut i: usize = 0;
        while i < self.a_classes.len()
            invariant
                provider.wf(),
                (av, bv, cv) == self@,
                i <= av.len(),
                forall|k: int, y: Seq<char>, z: Seq<char>| 0 <= k < i && bv.contains(y) && cv.contains(z)
                    ==> #[trigger] triple_ok(provider, av[k], y, z),
            decreases av.len() - i,
        {
            let a = self.a_classes.get(i);
            let mut j: usize = 0;
            while j < self.b_classes.len()
                invariant
                    provider.wf(),
                    (av, bv, cv) == self@,
                    i < av.len(),
                    a@ == av[i as int],
                    j <= bv.len(),
                    forall|k: int, y: Seq<char>, z: Seq<char>| 0 <= k < i && bv.contains(y) && cv.contains(z)
                        ==> #[trigger] triple_ok(provider, av[k], y, z),
                    forall|m: int, z: Seq<char>| 0 <= m < j && cv.contains(z) ==> #[trigger] triple_ok(provider, a@, bv[m], z),
                decreases bv.len() - j,
            {
                let b = self.b_classes.get(j);
                let mut l: usize = 0;
                while l < self.c_classes.len()
                    invariant
                        provider.wf(),
                        (av, bv, cv) == self@,
                        i < av.len(),
                        j < bv.len(),
                        a@ == av[i as int],
                        b@ == bv[j as int],
                        l <= cv.len(),
                        forall|q: int| 0 <= q < l ==> #[trigger] triple_ok(provider, a@, b@, cv[q]),
                    decreases cv.len() - l,
                {
                    let c = self.c_classes.get(l);
                    if !triple_ok_exec(provider, a.as_str(), b.as_str(), c.as_str()) {
                        assert(av.contains(a@) && bv.contains(b@) && cv.contains(c@));
                        return false;
                    }
                    l = l + 1;
                }
                assert forall|m: int, z: Seq<char>| 0 <= m < j + 1 && cv.contains(z) implies #[trigger] triple_ok(provider, a@, bv[m], z) by {
                    if m == j {
                        let q = choose|q: int| 0 <= q < cv.len() && cv[q] == z;
                        assert(triple_ok(provider, a@, b@, cv[q]));
                    }
                }
                j = j + 1;
            }
            assert forall|k: int, y: Seq<char>, z: Seq<char>| 0 <= k < i + 1 && bv.contains(y) && cv.contains(z)
                implies #[trigger] triple_ok(provider, av[k], y, z) by {
                if k == i {
                    let m = choose|m: int| 0 <= m < bv.len() && bv[m] == y;
                    assert(triple_ok(provider, a@, bv[m], z));
                }
            }
            i = i + 1;
        }
        proof {
            assert forall|x: Seq<char>, y: Seq<char>, z: Seq<char>| av.contains(x) && bv.contains(y) && cv.contains(z)
                implies #[trigger] triple_ok(provider, x, y, z) by {
                let k = choose|k: int| 0 <= k < av.len() && av[k] == x;
                assert(triple_ok(provider, av[k], y, z));
            }
        }
        true
    }
}

/// `(a, b)` is in the w1 or the w2 relation.
pub open spec fn in_w(w1: &PairSet, w2: &PairSet, a: Seq<char>, b: Seq<char>) -> bool {
    w1.pairs().contains((a, b)) || w2.pairs().contains((a, b))
}

/// What is asked of a pair of classes when an alpha set is extended.
pub enum ExtensionCheck {
    /// The pair is in w1 or w2.
    Dependent,
    /// The pair is unrelated and not in the right-double-arrow relation.
    Independent,
    /// The pair is in w1 (here: the w3 relation) and each class is
    /// unrelated to itself.
    SelfUnrelatedMember,
}

pub open spec fn extension_pred(
    p: &AlphaPlusNfcRelationsProvider,
    w1: &PairSet,
    w2: &PairSet,
    check: ExtensionCheck,
    x: Seq<char>,
    y: Seq<char>,
) -> bool {
    match check {
        ExtensionCheck::Dependent => in_w(w1, w2, x, y),
        ExtensionCheck::Independent => p.unrelated(x, y) && !p.right_double_arrow(x, y),
        ExtensionCheck::SelfUnrelatedMember => w1.pairs().contains((x, y)) && p.unrelated(x, x) && p.unrelated(y, y),
    }
}

/// Every pair drawn from `xs` and `ys` passes `check`.
pub open spec fn all_pass(
    p: &AlphaPlusNfcRelationsProvider,
    w1: &PairSet,
    w2: &PairSet,
    check: ExtensionCheck,
    xs: Seq<Seq<char>>,
    ys: Seq<Seq<char>>,
) -> bool {
    forall|x: Seq<char>, y: Seq<char>| xs.contains(x) && ys.contains(y) ==> #[trigger] extension_pred(p, w1, w2, check, x, y)
}

fn all_pass_exec(
    p: &AlphaPlusNfcRelationsProvider,
    w1: &PairSet,
    w2: &PairSet,
    check: ExtensionCheck,
    xs: &Vec<String>,
    ys: &Vec<String>,
) -> (r: bool)
    requires
        p.wf(),
        w1.wf(),
        w2.wf(),
    ensures
        r == all_pass(p, w1, w2, check, crate::text::strings_view(xs@), crate::text::strings_view(ys@)),
{
    let ghost xv = crate::text::strings_view(xs@);
    let ghost yv = crate::text::strings_view(ys@);
    let mut i: usize = 0;
    while i < xs.len()
        invariant
            p.wf(),
            w1.wf(),
            w2.wf(),
            xv == crate::text::strings_view(xs@),
            yv == crate::text::strings_view(ys@),
            i <= xs@.len(),
            forall|k: int, y: Seq<char>| 0 <= k < i && yv.contains(y) ==> #[trigger] extension_pred(p, w1, w2, check, xv[k], y),
        decreases xs.len() - i,
    {
        let x = &xs[i];
        assert(xv[i as int] == x@);
        let mut j: usize = 0;
        while j < ys.len()
            invariant
                p.wf(),
                w1.wf(),
                w2.wf(),
                xv == crate::text::strings_view(xs@),
                yv == crate::text::strings_view(ys@),
                i < xs@.len(),
                xv[i as int] == x@,
                j <= ys@.len(),
                forall|q: int| 0 <= q < j ==> #[trigger] extension_pred(p, w1, w2, check, x@, yv[q]),
            decreases ys.len() - j,
        {
            let y = &ys[j];
            assert(yv[j as int] == y@);
            let ok = match check {
                ExtensionCheck::Dependent => w1.contains(x.as_str(), y.as_str()) || w2.contains(x.as_str(), y.as_str()),
                ExtensionCheck::Independent => p.is_in_unrelated_relation(x.as_str(), y.as_str())
                    && !p.is_in_right_double_arrow_relation(x.as_str(), y.as_str()),
                ExtensionCheck::SelfUnrelatedMember => w1.contains(x.as_str(), y.as_str()) && p.is_in_unrelated_relation(
                    x.as_str(),
                    x.as_str(),
                ) && p.is_in_unrelated_relation(y.as_str(), y.as_str()),
            };
            if !ok {
                assert(xv.contains(x@) && yv.contains(y@));
                assert(!extension_pred(p, w1, w2, check, x@, y@));
                return false;
            }
            j = j + 1;
        }
        assert forall|k: int, y: Seq<char>| 0 <= k < i + 1 && yv.contains(y) implies #[trigger] extension_pred(p, w1, w2, check, xv[k], y) by {
            if k == i {
                let q = choose|q: int| 0 <= q < yv.len() && yv[q] == y;
                assert(extension_pred(p, w1, w2, check, x@, yv[q]));
            }
        }
        i = i + 1;
    }
    proof {
        assert forall|x: Seq<char>, y: Seq<char>| xv.contains(x) && yv.contains(y) implies #[trigger] extension_pred(p, w1, w2, check, x, y) by {
            let k = choose|k: int| 0 <= k < xv.len() && xv[k] == x;
            assert(extension_pred(p, w1, w2, check, xv[k], y));
        }
    }
    true
}

/// None of `xs` is in `ys`.
fn none_in(xs: &Vec<String>, ys: &ClassSet) -> (r: bool)
    requires
        ys.wf(),
    ensures
        r == forall|x: Seq<char>| crate::text::strings_view(xs@).contains(x) ==> !ys@.contains(x),
{
    let ghost xv = crate::text::strings_view(xs@);
    let mut i: usize = 0;
    while i < xs.len()
        invariant
            ys.wf(),
            xv == crate::text::strings_view(xs@),
            i <= xs@.len(),
            forall|k: int| 0 <= k < i ==> !ys@.contains(#[trigger] xv[k]),
        decreases xs.len() - i,
    {
        assert(xv[i as int] == xs@[i as int]@);
        if ys.contains(xs[i].as_str()) {
            assert(xv.contains(xv[i as int]));
            return false;
        }
        i = i + 1;
    }
    proof {
        assert forall|x: Seq<char>| xv.contains(x) implies !ys@.contains(x) by {
            let k = choose|k: int| 0 <= k < xv.len() && xv[k] == x;
        }
    }
    true
}

/// An alpha set `(A, B)` with classes `A'` and `B'` that extend it through
/// indirect dependencies.
pub struct ExtendedAlphaSet {
    alpha_set: AlphaSet,
    left_extension: ClassSet,
    right_extension: ClassSet,
}

impl View for ExtendedAlphaSet {
    type V = ((Seq<Seq<char>>, Seq<Seq<char>>), Seq<Seq<char>>, Seq<Seq<char>>);

    closed spec fn view(&self) -> ((Seq<Seq<char>>, Seq<Seq<char>>), Seq<Seq<char>>, Seq<Seq<char>>) {
        (self.alpha_set@, self.left_extension@, self.right_extension@)
    }
}

/// The conditions on an extended alpha set `((A, B), A', B')`: the
/// extensions are new on their side, `A × B'` and `A' × (B ∪ B')` are in w1
/// or w2, and `A' × A` and `B × B'` are unrelated without a
/// right-double-arrow between them.
pub open spec fn valid_extended(
    p: &AlphaPlusNfcRelationsProvider,
    w1: &PairSet,
    w2: &PairSet,
    x: ((Seq<Seq<char>>, Seq<Seq<char>>), Seq<Seq<char>>, Seq<Seq<char>>),
) -> bool {
    &&& forall|a: Seq<char>| x.1.contains(a) ==> !x.0.0.contains(a)
    &&& forall|b: Seq<char>| x.2.contains(b) ==> !x.0.1.contains(b)
    &&& all_pass(p, w1, w2, ExtensionCheck::Dependent, x.0.0, x.2)
    &&& all_pass(p, w1, w2, ExtensionCheck::Dependent, x.1, x.0.1)
    &&& all_pass(p, w1, w2, ExtensionCheck::Dependent, x.1, x.2)
    &&& all_pass(p, w1, w2, ExtensionCheck::Independent, x.1, x.0.0)
    &&& all_pass(p, w1, w2, ExtensionCheck::Independent, x.0.1, x.2)
}

impl ExtendedAlphaSet {
    pub closed spec fn wf(&self) -> bool {
        self.alpha_set.wf() && self.left_extension.wf() && self.right_extension.wf()
    }

    /// The text form of the alpha set in parentheses; the extensions do not show.
    pub fn to_string(&self) -> (r: String)
        ensures
            r@ == "("@ + "[{"@ + joined(self@.0.0) + "} {"@ + joined(self@.0.1) + "}]"@ + ")"@,
    {
        let mut repr = String::from_str("(");
        let inner = self.alpha_set.to_string();
        repr.append(inner.as_str());
        repr.append(")");
        repr
    }

    /// The alpha set with empty extensions.
    pub fn new_without_extensions(alpha_set: AlphaSet) -> (r: Self)
        requires
            alpha_set.wf(),
        ensures
            r.wf(),
            r@ == (alpha_set@, Seq::<Seq<char>>::empty(), Seq::<Seq<char>>::empty()),
    {
        ExtendedAlphaSet { alpha_set, left_extension: ClassSet::new(), right_extension: ClassSet::new() }
    }

    /// The alpha set extended by `({a'}, {b'})`.
    pub fn new(alpha_set: AlphaSet, left_extension: String, right_extension: String) -> (r: Self)
        requires
            alpha_set.wf(),
        ensures
            r.wf(),
            r@ == (alpha_set@, seq![left_extension@], seq![right_extension@]),
    {
        ExtendedAlphaSet {
            alpha_set,
            left_extension: ClassSet::singleton(left_extension),
            right_extension: ClassSet::singleton(right_extension),
        }
    }

    /// The alpha set extended by `({a'}, {b'})` when that is valid.
    pub fn try_new(
        alpha_set: AlphaSet,
        left_extension: String,
        right_extension: String,
        provider: &AlphaPlusNfcRelationsProvider,
        w1_relations: &PairSet,
        w2_relations: &PairSet,
    ) -> (r: Option<Self>)
        requires
            alpha_set.wf(),
            provider.wf(),
            w1_relations.wf(),
            w2_relations.wf(),
        ensures
            match r {
                Some(s) => s.wf() && s@ == (alpha_set@, seq![left_extension@], seq![right_extension@]),
                None => true,
            },
            r is Some <==> valid_extended(provider, w1_relations, w2_relations,
                (alpha_set@, seq![left_extension@], seq![right_extension@])),
    {
        let new_set = Self::new(alpha_set, left_extension, right_extension);
        if new_set.valid(provider, w1_relations, w2_relations) {
            Some(new_set)
        } else {
            None
        }
    }

    /// Whether the extended set satisfies `valid_extended`.
    pub fn valid(&self, provider: &AlphaPlusNfcRelationsProvider, w1_relations: &PairSet, w2_relations: &PairSet) -> (r: bool)
        requires
            self.wf(),
            provider.wf(),
            w1_relations.wf(),
            w2_relations.wf(),
        ensures
            r == valid_extended(provider, w1_relations, w2_relations, self@),
    {
        let lefts = self.left_extension.to_vec();
        let rights = self.right_extension.to_vec();
        let a_classes = self.alpha_set.left_classes();
        let b_classes = self.alpha_set.right_classes();
        proof {
            self.alpha_set.lemma_no_duplicates();
        }
        let ok1 = none_in(&lefts, &self.alpha_set.left_class_set());
        let ok2 = none_in(&rights, &self.alpha_set.right_class_set());
        let ok3 = all_pass_exec(provider, w1_relations, w2_relations, ExtensionCheck::Dependent, &a_classes, &rights);
        let ok4 = all_pass_exec(provider, w1_relations, w2_relations, ExtensionCheck::Dependent, &lefts, &b_classes);
        let ok5 = all_pass_exec(provider, w1_relations, w2_relations, ExtensionCheck::Dependent, &lefts, &rights);
        let ok6 = all_pass_exec(provider, w1_relations, w2_relations, ExtensionCheck::Independent, &lefts, &a_classes);
        let ok7 = all_pass_exec(provider, w1_relations, w2_relations, ExtensionCheck::Independent, &b_classes, &rights);
        ok1 && ok2 && ok3 && ok4 && ok5 && ok6 && ok7
    }

    /// Whether the alpha set and both extensions lie within the other's.
    pub fn subset(&self, other: &Self) -> (r: bool)
        requires
            other.wf(),
        ensures
            r == (full_subset(self@.0, other@.0) && subset_of(self@.1, other@.1) && subset_of(self@.2, other@.2)),
    {
        if !self.alpha_set.is_full_subset(&other.alpha_set) {
            false
        } else {
            self.left_extension.is_subset(&other.left_extension) && self.right_extension.is_subset(&other.right_extension)
        }
    }

    /// The side-by-side union.
    pub fn merge(&self, other: &Self) -> (r: Self)
        requires
            self.wf(),
            other.wf(),
        ensures
            r.wf(),
            forall|x: Seq<char>| r@.0.0.contains(x) <==> (self@.0.0.contains(x) || other@.0.0.contains(x)),
            forall|x: Seq<char>| r@.0.1.contains(x) <==> (self@.0.1.contains(x) || other@.0.1.contains(x)),
            forall|x: Seq<char>| r@.1.contains(x) <==> (self@.1.contains(x) || other@.1.contains(x)),
            forall|x: Seq<char>| r@.2.contains(x) <==> (self@.2.contains(x) || other@.2.contains(x)),
    {
        let alpha_set = self.alpha_set.extend(&other.alpha_set);
        assert forall|x: Seq<char>| alpha_set@.0.contains(x) <==> (self@.0.0.contains(x) || other@.0.0.contains(x)) by {
            assert(alpha_set.left().contains(x) <==> (self.alpha_set.left().contains(x) || other.alpha_set.left().contains(x)));
        }
        assert forall|x: Seq<char>| alpha_set@.1.contains(x) <==> (self@.0.1.contains(x) || other@.0.1.contains(x)) by {
            assert(alpha_set.right().contains(x) <==> (self.alpha_set.right().contains(x) || other.alpha_set.right().contains(x)));
        }
        ExtendedAlphaSet {
            alpha_set,
            left_extension: self.left_extension.union(&other.left_extension),
            right_extension: self.right_extension.union(&other.right_extension),
        }
    }
}

/// A pair `(F, S)` of class sets for the w3 relation.
pub struct W3Pair {
    first: ClassSet,
    second: ClassSet,
}

impl View for W3Pair {
    type V = (Seq<Seq<char>>, Seq<Seq<char>>);

    closed spec fn view(&self) -> (Seq<Seq<char>>, Seq<Seq<char>>) {
        (self.first@, self.second@)
    }
}

/// Every pair of `F × S` is in w3, and every class of `F` and of `S` is
/// unrelated to itself.
pub open spec fn valid_w3_pair(p: &AlphaPlusNfcRelationsProvider, w3: &PairSet, x: (Seq<Seq<char>>, Seq<Seq<char>>)) -> bool {
    all_pass(p, w3, w3, ExtensionCheck::SelfUnrelatedMember, x.0, x.1)
}

impl W3Pair {
    pub closed spec fn wf(&self) -> bool {
        self.first.wf() && self.second.wf()
    }

    /// `({first}, {second})`.
    pub fn new(first: String, second: String) -> (r: Self)
        ensures
            r.wf(),
            r@ == (seq![first@], seq![second@]),
    {
        W3Pair { first: ClassSet::singleton(first), second: ClassSet::singleton(second) }
    }

    /// `({first}, {second})` when it is valid.
    pub fn try_new(first: String, second: String, w3_relations: &PairSet, provider: &AlphaPlusNfcRelationsProvider) -> (r: Option<Self>)
        requires
            provider.wf(),
            w3_relations.wf(),
        ensures
            match r {
                Some(s) => s.wf() && s@ == (seq![first@], seq![second@]),
                None => true,
            },
            r is Some <==> valid_w3_pair(provider, w3_relations, (seq![first@], seq![second@])),
    {
        let new_pair = Self::new(first, second);
        if new_pair.valid(w3_relations, provider) {
            Some(new_pair)
        } else {
            None
        }
    }

    pub fn valid(&self, w3_relations: &PairSet, provider: &AlphaPlusNfcRelationsProvider) -> (r: bool)
        requires
            self.wf(),
            provider.wf(),
            w3_relations.wf(),
        ensures
            r == valid_w3_pair(provider, w3_relations, self@),
    {
        let firsts = self.first.to_vec();
        let seconds = self.second.to_vec();
        all_pass_exec(provider, w3_relations, w3_relations, ExtensionCheck::SelfUnrelatedMember, &firsts, &seconds)
    }

    /// The side-by-side union.
    pub fn merge(&self, other: &Self) -> (r: Self)
        requires
            self.wf(),
            other.wf(),
        ensures
            r.wf(),
            forall|x: Seq<char>| r@.0.contains(x) <==> (self@.0.contains(x) || other@.0.contains(x)),
            forall|x: Seq<char>| r@.1.contains(x) <==> (self@.1.contains(x) || other@.1.contains(x)),
    {
        W3Pair { first: self.first.union(&other.first), second: self.second.union(&other.second) }
    }
}

/// Drops the relations that the closure cache holds.
pub fn eliminate_w3_relations_by_rule_2(w3_relations: &mut PairSet, closure_cache: &PairSet)
    requires
        old(w3_relations).wf(),
        closure_cache.wf(),
    ensures
        final(w3_relations).wf(),
        forall|p: (Seq<char>, Seq<char>)| #[trigger] final(w3_relations).pairs().contains(p) <==> (old(w3_relations).pairs().contains(p)
            && !closure_cache.pairs().contains(p)),
{
    let mut kept = PairSet::new();
    let n = w3_relations.len();
    let mut i: usize = 0;
    while i < n
        invariant
            w3_relations.wf(),
            closure_cache.wf(),
            kept.wf(),
            n == w3_relations.pairs().len(),
            i <= n,
            forall|p: (Seq<char>, Seq<char>)| #[trigger] kept.pairs().contains(p) <==> (w3_relations.pairs().take(i as int).contains(p)
                && !closure_cache.pairs().contains(p)),
        decreases n - i,
    {
        let (first, second) = w3_relations.pair_at(i);
        if !closure_cache.contains(first.as_str(), second.as_str()) {
            kept.insert(first.as_str(), second.as_str());
        }
        proof {
            let ps = w3_relations.pairs();
            assert forall|p: (Seq<char>, Seq<char>)| #[trigger] kept.pairs().contains(p) <==> (ps.take(i + 1).contains(p)
                && !closure_cache.pairs().contains(p)) by {
                if ps.take(i + 1).contains(p) {
                    let k = choose|k: int| 0 <= k < i + 1 && #[trigger] ps.take(i + 1)[k] == p;
                    if k < i {
                        assert(ps.take(i as int)[k] == p);
                    }
                }
                if ps.take(i as int).contains(p) {
                    let k = choose|k: int| 0 <= k < i && #[trigger] ps.take(i as int)[k] == p;
                    assert(ps.take(i + 1)[k] == p);
                }
                if p == ps[i as int] {
                    assert(ps.take(i + 1)[i as int] == p);
                }
            }
        }
        i = i + 1;
    }
    assert(w3_relations.pairs().take(n as int) =~= w3_relations.pairs());
    *w3_relations = kept;
}

/// The step from position `i` of `p` to the next is an edge of `w`.
pub open spec fn path_edge(w: Seq<(Seq<char>, Seq<char>)>, p: Seq<Seq<char>>, i: int) -> bool {
    w.contains((p[i], p[i + 1]))
}

/// `p` is a path of at least one edge of `w`.
pub open spec fn is_path(w: Seq<(Seq<char>, Seq<char>)>, p: Seq<Seq<char>>) -> bool {
    p.len() >= 2 && forall|i: int| 0 <= i < p.len() - 1 ==> #[trigger] path_edge(w, p, i)
}

/// `b` can be reached from `a` along one or more edges of `w`.
pub open spec fn reaches(w: Seq<(Seq<char>, Seq<char>)>, a: Seq<char>, b: Seq<char>) -> bool {
    exists|p: Seq<Seq<char>>| #[trigger] is_path(w, p) && p[0] == a && p.last() == b
}

/// The classes `b` with an edge `(n, b)`.
fn successors(w: &PairSet, n: &str) -> (r: Vec<String>)
    requires
        w.wf(),
    ensures
        forall|b: Seq<char>| #[trigger] crate::text::strings_view(r@).contains(b) <==> w.pairs().contains((n@, b)),
{
    let mut r: Vec<String> = Vec::new();
    let mut i: usize = 0;
    while i < w.len()
        invariant
            w.wf(),
            i <= w.pairs().len(),
            forall|b: Seq<char>| #[trigger] crate::text::strings_view(r@).contains(b) <==> w.pairs().take(i as int).contains((n@, b)),
        decreases w.pairs().len() - i,
    {
        let (first, second) = w.pair_at(i);
        let ghost before = crate::text::strings_view(r@);
        if crate::text::str_eq(first.as_str(), n) {
            r.push(second.clone());
            assert(crate::text::strings_view(r@) =~= before.push(second@));
        }
        proof {
            let ps = w.pairs();
            assert forall|b: Seq<char>| #[trigger] crate::text::strings_view(r@).contains(b) <==> ps.take(i + 1).contains((n@, b)) by {
                if ps.take(i + 1).contains((n@, b)) {
                    let k = choose|k: int| 0 <= k < i + 1 && #[trigger] ps.take(i + 1)[k] == (n@, b);
                    if k < i {
                        assert(ps.take(i as int)[k] == (n@, b));
                    } else {
                        assert(crate::text::strings_view(r@)[crate::text::strings_view(r@).len() - 1] == b);
                    }
                }
                if ps.take(i as int).contains((n@, b)) {
                    let k = choose|k: int| 0 <= k < i && #[trigger] ps.take(i as int)[k] == (n@, b);
                    assert(ps.take(i + 1)[k] == (n@, b));
                }
                if crate::text::strings_view(r@).contains(b) && !before.contains(b) {
                    assert(ps.take(i + 1)[i as int] == (n@, b));
                }
                if before.contains(b) {
                    let k = choose|k: int| 0 <= k < before.len() && before[k] == b;
                    assert(crate::text::strings_view(r@)[k] == b);
                }
            }
        }
        i = i + 1;
    }
    assert(w.pairs().take(w.pairs().len() as int) =~= w.pairs());
    r
}

/// The classes that are second in some pair of `w`, in ascending order.
fn targets(w: &PairSet) -> (r: ClassSet)
    requires
        w.wf(),
    ensures
        r.wf(),
        forall|b: Seq<char>| #[trigger] r@.contains(b) <==> exists|a: Seq<char>| w.pairs().contains((a, b)),
{
    let mut r = ClassSet::new();
    let mut i: usize = 0;
    while i < w.len()
        invariant
            w.wf(),
            r.wf(),
            i <= w.pairs().len(),
            forall|b: Seq<char>| #[trigger] r@.contains(b) <==> exists|k: int| 0 <= k < i && #[trigger] w.pairs()[k].1 == b,
        decreases w.pairs().len() - i,
    {
        let (_first, second) = w.pair_at(i);
        r.insert(second.clone());
        proof {
            assert forall|b: Seq<char>| #[trigger] r@.contains(b) <==> exists|k: int| 0 <= k < i + 1 && #[trigger] w.pairs()[k].1 == b by {
                if b == second@ {
                    assert(w.pairs()[i as int].1 == b);
                }
                if exists|k: int| 0 <= k < i + 1 && #[trigger] w.pairs()[k].1 == b {
                    let k = choose|k: int| 0 <= k < i + 1 && #[trigger] w.pairs()[k].1 == b;
                    if k < i {
                        assert(exists|k: int| 0 <= k < i && #[trigger] w.pairs()[k].1 == b);
                    }
                }
            }
        }
        i = i + 1;
    }
    proof {
        assert forall|b: Seq<char>| #[trigger] r@.contains(b) <==> exists|a: Seq<char>| w.pairs().contains((a, b)) by {
            if r@.contains(b) {
                let k = choose|k: int| 0 <= k < w.pairs().len() && #[trigger] w.pairs()[k].1 == b;
                assert(w.pairs().contains((w.pairs()[k].0, b)));
            }
            if exists|a: Seq<char>| w.pairs().contains((a, b)) {
                let a = choose|a: Seq<char>| w.pairs().contains((a, b));
                let k = choose|k: int| 0 <= k < w.pairs().len() && w.pairs()[k] == (a, b);
                assert(w.pairs()[k].1 == b);
            }
        }
    }
    r
}

proof fn lemma_path_extend(w: Seq<(Seq<char>, Seq<char>)>, p: Seq<Seq<char>>, b: Seq<char>)
    requires
        is_path(w, p),
        w.contains((p.last(), b)),
    ensures
        is_path(w, p.push(b)),
        p.push(b)[0] == p[0],
        p.push(b).last() == b,
{
    let q = p.push(b);
    assert forall|i: int| 0 <= i < q.len() - 1 implies #[trigger] path_edge(w, q, i) by {
        if i < p.len() - 1 {
            assert(path_edge(w, p, i));
            assert(q[i] == p[i] && q[i + 1] == p[i + 1]);
        } else {
            assert(q[i] == p.last());
        }
    }
}

/// Growing a sequence without duplicates by a new member makes it longer.
proof fn lemma_insert_len(a: Seq<Seq<char>>, b: Seq<Seq<char>>, x: Seq<char>)
    requires
        a.no_duplicates(),
        b.no_duplicates(),
        !a.contains(x),
        forall|y: Seq<char>| b.contains(y) <==> (a.contains(y) || y == x),
    ensures
        b.len() == a.len() + 1,
{
    a.unique_seq_to_set();
    b.unique_seq_to_set();
    assert(b.to_set() =~= a.to_set().insert(x));
}

/// Every class reachable from `x` lies in a set closed under successors
/// that holds the successors of `x`.
proof fn lemma_closed_reach(
    w: Seq<(Seq<char>, Seq<char>)>,
    reach: Seq<Seq<char>>,
    x: Seq<char>,
    p: Seq<Seq<char>>,
    k: int,
)
    requires
        is_path(w, p),
        p[0] == x,
        1 <= k < p.len(),
        forall|b: Seq<char>| w.contains((x, b)) ==> reach.contains(b),
        forall|n: Seq<char>, b: Seq<char>| reach.contains(n) && #[trigger] w.contains((n, b)) ==> reach.contains(b),
    ensures
        reach.contains(p[k]),
    decreases k,
{
    assert(path_edge(w, p, k - 1));
    if k > 1 {
        lemma_closed_reach(w, reach, x, p, k - 1);
    }
}

/// The classes reachable from `x` along one or more edges of `w`.
fn reach_from(w: &PairSet, x: &str, all_targets: &ClassSet) -> (r: ClassSet)
    requires
        w.wf(),
        all_targets.wf(),
        forall|b: Seq<char>| #[trigger] all_targets@.contains(b) <==> exists|a: Seq<char>| w.pairs().contains((a, b)),
    ensures
        r.wf(),
        forall|y: Seq<char>| #[trigger] r@.contains(y) <==> reaches(w.pairs(), x@, y),
{
    let ghost ws = w.pairs();
    let mut reach = ClassSet::new();
    let mut frontier = successors(w, x);
    proof {
        crate::class_set::lemma_sorted_no_duplicates(all_targets@);
        assert forall|k: int| 0 <= k < frontier@.len() implies reaches(ws, x@, #[trigger] crate::text::strings_view(frontier@)[k]) by {
            let b = crate::text::strings_view(frontier@)[k];
            assert(crate::text::strings_view(frontier@).contains(b));
            let p = seq![x@, b];
            assert(path_edge(ws, p, 0));
            assert(is_path(ws, p));
        }
    }
    while frontier.len() > 0
        invariant
            w.wf(),
            ws == w.pairs(),
            all_targets.wf(),
            all_targets@.no_duplicates(),
            forall|b: Seq<char>| #[trigger] all_targets@.contains(b) <==> exists|a: Seq<char>| ws.contains((a, b)),
            reach.wf(),
            forall|y: Seq<char>| #[trigger] reach@.contains(y) ==> reaches(ws, x@, y),
            forall|k: int| 0 <= k < frontier@.len() ==> reaches(ws, x@, #[trigger] crate::text::strings_view(frontier@)[k]),
            forall|b: Seq<char>| #[trigger] ws.contains((x@, b)) ==> reach@.contains(b) || crate::text::strings_view(frontier@).contains(b),
            forall|n: Seq<char>, b: Seq<char>| reach@.contains(n) && #[trigger] ws.contains((n, b)) ==> reach@.contains(b)
                || crate::text::strings_view(frontier@).contains(b),
        decreases all_targets@.len() - reach@.len(), frontier@.len(),
    {
        let ghost fv = crate::text::strings_view(frontier@);
        let n = frontier.pop().unwrap();
        assert(fv == crate::text::strings_view(frontier@).push(n@));
        assert(fv[fv.len() - 1] == n@);
        assert(reaches(ws, x@, n@));
        proof {
            crate::class_set::lemma_sorted_no_duplicates(reach@);
            let p = choose|p: Seq<Seq<char>>| #[trigger] is_path(ws, p) && p[0] == x@ && p.last() == n@;
            assert(path_edge(ws, p, p.len() - 2));
            assert(all_targets@.contains(n@));
            assert forall|y: Seq<char>| reach@.contains(y) implies all_targets@.contains(y) by {
                let q = choose|q: Seq<Seq<char>>| #[trigger] is_path(ws, q) && q[0] == x@ && q.last() == y;
                assert(path_edge(ws, q, q.len() - 2));
            }
            crate::class_set::lemma_subset_len(reach@, all_targets@);
        }
        if !reach.contains(n.as_str()) {
            let ghost old_reach = reach@;
            reach.insert(n.clone());
            let succ = successors(w, n.as_str());
            let ghost fv0 = crate::text::strings_view(frontier@);
            let mut j: usize = 0;
            while j < succ.len()
                invariant
                    j <= succ@.len(),
                    crate::text::strings_view(frontier@) == fv0 + crate::text::strings_view(succ@).take(j as int),
                decreases succ.len() - j,
            {
                let ghost before = frontier@;
                frontier.push(succ[j].clone());
                assert(crate::text::strings_view(frontier@) =~= crate::text::strings_view(before).push(succ@[j as int]@));
                assert(crate::text::strings_view(succ@).take(j + 1) =~= crate::text::strings_view(succ@).take(j as int).push(succ@[j as int]@));
                assert(crate::text::strings_view(frontier@) =~= fv0 + crate::text::strings_view(succ@).take(j + 1));
                j = j + 1;
            }
            proof {
                let sv = crate::text::strings_view(succ@);
                assert(sv.take(sv.len() as int) =~= sv);
                let nf = crate::text::strings_view(frontier@);
                assert(nf =~= fv0 + sv);
                crate::class_set::lemma_sorted_no_duplicates(reach@);
                lemma_insert_len(old_reach, reach@, n@);
                assert forall|y: Seq<char>| reach@.contains(y) implies all_targets@.contains(y) by {
                    if y != n@ {
                        let q = choose|q: Seq<Seq<char>>| #[trigger] is_path(ws, q) && q[0] == x@ && q.last() == y;
                        assert(path_edge(ws, q, q.len() - 2));
                    }
                }
                crate::class_set::lemma_subset_len(reach@, all_targets@);
                assert forall|b: Seq<char>| fv0.contains(b) implies nf.contains(b) by {
                    let k = choose|k: int| 0 <= k < fv0.len() && fv0[k] == b;
                    assert(nf[k] == b);
                }
                assert forall|b: Seq<char>| sv.contains(b) implies nf.contains(b) by {
                    let k = choose|k: int| 0 <= k < sv.len() && sv[k] == b;
                    assert(nf[fv0.len() + k] == b);
                }
                assert forall|k: int| 0 <= k < nf.len() implies reaches(ws, x@, #[trigger] nf[k]) by {
                    if k < fv0.len() {
                        assert(nf[k] == fv[k]);
                    } else {
                        let b = sv[k - fv0.len()];
                        assert(nf[k] == b);
                        assert(sv.contains(b));
                        let p = choose|p: Seq<Seq<char>>| #[trigger] is_path(ws, p) && p[0] == x@ && p.last() == n@;
                        lemma_path_extend(ws, p, b);
                    }
                }
                assert forall|b: Seq<char>| #[trigger] ws.contains((x@, b)) implies reach@.contains(b) || nf.contains(b) by {
                    if !reach@.contains(b) {
                        assert(fv.contains(b));
                        let k = choose|k: int| 0 <= k < fv.len() && fv[k] == b;
                        if k < fv0.len() {
                            assert(fv0[k] == b);
                        }
                    }
                }
                assert forall|m: Seq<char>, b: Seq<char>| reach@.contains(m) && #[trigger] ws.contains((m, b)) implies reach@.contains(b)
                    || nf.contains(b) by {
                    if m == n@ {
                        assert(sv.contains(b));
                    } else if !reach@.contains(b) {
                        assert(old_reach.contains(m));
                        assert(fv.contains(b));
                        let k = choose|k: int| 0 <= k < fv.len() && fv[k] == b;
                        if k < fv0.len() {
                            assert(fv0[k] == b);
                        }
                    }
                }
            }
        } else {
            proof {
                let nf = crate::text::strings_view(frontier@);
                assert forall|k: int| 0 <= k < nf.len() implies reaches(ws, x@, #[trigger] nf[k]) by {
                    assert(nf[k] == fv[k]);
                }
                assert forall|b: Seq<char>| #[trigger] ws.contains((x@, b)) implies reach@.contains(b) || nf.contains(b) by {
                    if !reach@.contains(b) {
                        let k = choose|k: int| 0 <= k < fv.len() && fv[k] == b;
                        if k < nf.len() {
                            assert(nf[k] == b);
                        }
                    }
                }
                assert forall|m: Seq<char>, b: Seq<char>| reach@.contains(m) && #[trigger] ws.contains((m, b)) implies reach@.contains(b)
                    || nf.contains(b) by {
                    if !reach@.contains(b) {
                        let k = choose|k: int| 0 <= k < fv.len() && fv[k] == b;
                        if k < nf.len() {
                            assert(nf[k] == b);
                        }
                    }
                }
            }
        }
    }
    proof {
        assert forall|y: Seq<char>| reaches(ws, x@, y) implies #[trigger] reach@.contains(y) by {
            let p = choose|p: Seq<Seq<char>>| #[trigger] is_path(ws, p) && p[0] == x@ && p.last() == y;
            lemma_closed_reach(ws, reach@, x@, p, p.len() - 1);
        }
    }
    reach
}

/// The pairs `(a, b)` of classes where `b` can be reached from `a` along
/// edges of `w3_relations` but not by a single edge.
pub fn construct_w3_transitive_closure_cache(w3_relations: &PairSet) -> (r: PairSet)
    requires
        w3_relations.wf(),
    ensures
        r.wf(),
        forall|a: Seq<char>, b: Seq<char>| #[trigger] r.pairs().contains((a, b)) <==> (!w3_relations.pairs().contains((a, b))
            && reaches(w3_relations.pairs(), a, b)),
{
    let ghost ws = w3_relations.pairs();
    let all_targets = targets(w3_relations);
    let mut sources = ClassSet::new();
    let mut i: usize = 0;
    while i < w3_relations.len()
        invariant
            w3_relations.wf(),
            ws == w3_relations.pairs(),
            sources.wf(),
            i <= ws.len(),
            forall|a: Seq<char>| #[trigger] sources@.contains(a) <==> exists|k: int| 0 <= k < i && #[trigger] ws[k].0 == a,
        decreases ws.len() - i,
    {
        let (first, _second) = w3_relations.pair_at(i);
        sources.insert(first.clone());
        proof {
            assert forall|a: Seq<char>| #[trigger] sources@.contains(a) <==> exists|k: int| 0 <= k < i + 1 && #[trigger] ws[k].0 == a by {
                if a == first@ {
                    assert(ws[i as int].0 == a);
                }
                if exists|k: int| 0 <= k < i + 1 && #[trigger] ws[k].0 == a {
                    let k = choose|k: int| 0 <= k < i + 1 && #[trigger] ws[k].0 == a;
                    if k < i {
                        assert(exists|k: int| 0 <= k < i && #[trigger] ws[k].0 == a);
                    }
                }
            }
        }
        i = i + 1;
    }
    let mut closure = PairSet::new();
    let mut s: usize = 0;
    while s < sources.len()
        invariant
            w3_relations.wf(),
            ws == w3_relations.pairs(),
            sources.wf(),
            all_targets.wf(),
            forall|b: Seq<char>| #[trigger] all_targets@.contains(b) <==> exists|a: Seq<char>| ws.contains((a, b)),
            closure.wf(),
            s <= sources@.len(),
            forall|a: Seq<char>, b: Seq<char>| #[trigger] closure.pairs().contains((a, b)) <==> (sources@.take(s as int).contains(a)
                && !ws.contains((a, b)) && reaches(ws, a, b)),
        decreases sources@.len() - s,
    {
        let a = sources.get(s);
        let reach = reach_from(w3_relations, a.as_str(), &all_targets);
        let mut t: usize = 0;
        while t < reach.len()
            invariant
                w3_relations.wf(),
                ws == w3_relations.pairs(),
                closure.wf(),
                reach.wf(),
                s < sources@.len(),
                a@ == sources@[s as int],
                forall|y: Seq<char>| #[trigger] reach@.contains(y) <==> reaches(ws, a@, y),
                t <= reach@.len(),
                forall|x: Seq<char>, b: Seq<char>| #[trigger] closure.pairs().contains((x, b)) <==> ((sources@.take(s as int).contains(x)
                    && !ws.contains((x, b)) && reaches(ws, x, b)) || (x == a@ && reach@.take(t as int).contains(b)
                    && !ws.contains((x, b)))),
            decreases reach@.len() - t,
        {
            let b = reach.get(t);
            let direct = w3_relations.contains(a.as_str(), b.as_str());
            if !direct {
                closure.insert(a.as_str(), b.as_str());
            }
            proof {
                let rv = reach@;
                assert forall|x: Seq<char>, y: Seq<char>| #[trigger] closure.pairs().contains((x, y)) <==> ((sources@.take(s as int).contains(x)
                    && !ws.contains((x, y)) && reaches(ws, x, y)) || (x == a@ && rv.take(t + 1).contains(y) && !ws.contains((x, y)))) by {
                    if rv.take(t + 1).contains(y) {
                        let k = choose|k: int| 0 <= k < t + 1 && #[trigger] rv.take(t + 1)[k] == y;
                        if k < t {
                            assert(rv.take(t as int)[k] == y);
                        }
                    }
                    if rv.take(t as int).contains(y) {
                        let k = choose|k: int| 0 <= k < t && #[trigger] rv.take(t as int)[k] == y;
                        assert(rv.take(t + 1)[k] == y);
                    }
                    if y == b@ {
                        assert(rv.take(t + 1)[t as int] == y);
                    }
                }
            }
            t = t + 1;
        }
        proof {
            let rv = reach@;
            assert(rv.take(rv.len() as int) =~= rv);
            let sv = sources@;
            assert forall|x: Seq<char>, y: Seq<char>| #[trigger] closure.pairs().contains((x, y)) <==> (sv.take(s + 1).contains(x)
                && !ws.contains((x, y)) && reaches(ws, x, y)) by {
                if sv.take(s + 1).contains(x) {
                    let k = choose|k: int| 0 <= k < s + 1 && #[trigger] sv.take(s + 1)[k] == x;
                    if k < s {
                        assert(sv.take(s as int)[k] == x);
                    }
                }
                if sv.take(s as int).contains(x) {
                    let k = choose|k: int| 0 <= k < s && #[trigger] sv.take(s as int)[k] == x;
                    assert(sv.take(s + 1)[k] == x);
                }
                if x == a@ {
                    assert(sv.take(s + 1)[s as int] == x);
                }
                if x == a@ && reaches(ws, x, y) {
                    assert(rv.contains(y));
                }
            }
        }
        s = s + 1;
    }
    proof {
        let sv = sources@;
        assert(sv.take(sv.len() as int) =~= sv);
        assert forall|a: Seq<char>, b: Seq<char>| #[trigger] closure.pairs().contains((a, b)) <==> (!ws.contains((a, b))
            && reaches(ws, a, b)) by {
            if reaches(ws, a, b) {
                let p = choose|p: Seq<Seq<char>>| #[trigger] is_path(ws, p) && p[0] == a && p.last() == b;
                assert(path_edge(ws, p, 0));
                let k = choose|k: int| 0 <= k < ws.len() && ws[k] == (p[0], p[1]);
                assert(ws[k].0 == a);
                assert(sv.contains(a));
            }
        }
    }
    closure
}

} // verus!
