//! The merging of candidate places in the alpha algorithm, stated over
//! pairs of class sets: round after round, every two candidates that may be
//! merged are replaced by their union, until a round finds nothing to merge.
use vstd::prelude::*;
use crate::alpha::alpha_set::related;
use crate::alpha::provider::AlphaRelationsProvider;

verus! {

/// A candidate place: the classes before it and the classes after it.
pub type ClassPair = (Set<Seq<char>>, Set<Seq<char>>);

/// The candidate whose sides hold the members of `x.0` and of `x.1`.
pub open spec fn class_pair(x: (Seq<Seq<char>>, Seq<Seq<char>>)) -> ClassPair {
    (x.0.to_set(), x.1.to_set())
}

/// The union of two candidates, side by side.
pub open spec fn union_pair(a: ClassPair, b: ClassPair) -> ClassPair {
    (a.0 + b.0, a.1 + b.1)
}

/// The union of `a` and `b` is an alpha set: every class before it causes
/// every class after it, and the classes on each side are pairwise unrelated.
pub open spec fn union_is_alpha_set<P: AlphaRelationsProvider>(provider: &P, a: ClassPair, b: ClassPair) -> bool {
    let u = union_pair(a, b);
    &&& forall|x: Seq<char>, y: Seq<char>| u.0.contains(x) && u.1.contains(y) ==> #[trigger] related(provider, x, y, true)
    &&& forall|x: Seq<char>, y: Seq<char>| u.0.contains(x) && u.0.contains(y) ==> #[trigger] related(provider, x, y, false)
    &&& forall|x: Seq<char>, y: Seq<char>| u.1.contains(x) && u.1.contains(y) ==> #[trigger] related(provider, x, y, false)
}

/// `a`, coming before `b`, is merged with it: one side of `a` lies within
/// the same side of `b`, and their union is an alpha set.
pub open spec fn mergeable<P: AlphaRelationsProvider>(provider: &P, a: ClassPair, b: ClassPair) -> bool {
    (a.0.subset_of(b.0) || a.1.subset_of(b.1)) && union_is_alpha_set(provider, a, b)
}

/// The unions of `s[i]` with each later `s[k]`, `k < j`, that it is merged with, in order.
pub open spec fn row_unions<P: AlphaRelationsProvider>(provider: &P, s: Seq<ClassPair>, i: int, j: int) -> Seq<ClassPair>
    decreases j - i,
{
    if j <= i + 1 {
        Seq::empty()
    } else {
        let prev = row_unions(provider, s, i, j - 1);
        if mergeable(provider, s[i], s[j - 1]) {
            prev.push(union_pair(s[i], s[j - 1]))
        } else {
            prev
        }
    }
}

/// The unions of all merged pairs whose first member comes before `i`, in order.
pub open spec fn all_unions<P: AlphaRelationsProvider>(provider: &P, s: Seq<ClassPair>, i: int) -> Seq<ClassPair>
    decreases i,
{
    if i <= 0 {
        Seq::empty()
    } else {
        all_unions(provider, s, i - 1) + row_unions(provider, s, i - 1, s.len() as int)
    }
}

/// The pair `(a, b)` comes before the pair `(i, j)` in the order of the scan.
pub open spec fn scanned(a: int, b: int, i: int, j: int) -> bool {
    a < i || (a == i && b < j)
}

/// Some pair scanned before `(i, j)` is merged and holds `m`.
pub open spec fn marked_before<P: AlphaRelationsProvider>(provider: &P, s: Seq<ClassPair>, i: int, j: int, m: int) -> bool {
    exists|a: int, b: int| 0 <= a < b < s.len() && scanned(a, b, i, j) && (a == m || b == m) && #[trigger] mergeable(provider, s[a], s[b])
}

/// `s[m]` is merged with some other candidate.
pub open spec fn is_merged<P: AlphaRelationsProvider>(provider: &P, s: Seq<ClassPair>, m: int) -> bool {
    marked_before(provider, s, s.len() as int, 0, m)
}

/// The candidates among the first `i` that are merged with none, in order.
pub open spec fn unmerged<P: AlphaRelationsProvider>(provider: &P, s: Seq<ClassPair>, i: int) -> Seq<ClassPair>
    decreases i,
{
    if i <= 0 {
        Seq::empty()
    } else {
        let prev = unmerged(provider, s, i - 1);
        if is_merged(provider, s, i - 1) {
            prev
        } else {
            prev.push(s[i - 1])
        }
    }
}

/// Some two candidates, the first before the second, are merged.
pub open spec fn changes<P: AlphaRelationsProvider>(provider: &P, s: Seq<ClassPair>) -> bool {
    exists|a: int, b: int| 0 <= a < b < s.len() && #[trigger] mergeable(provider, s[a], s[b])
}

/// One round: the unions of the merged pairs, then the candidates merged with none.
pub open spec fn merge_round<P: AlphaRelationsProvider>(provider: &P, s: Seq<ClassPair>) -> Seq<ClassPair> {
    all_unions(provider, s, s.len() as int) + unmerged(provider, s, s.len() as int)
}

/// The candidates after rounds are run on `s` until one finds nothing to
/// merge, or `rounds` rounds have run.
#[verifier::opaque]
pub open spec fn settle<P: AlphaRelationsProvider>(provider: &P, s: Seq<ClassPair>, rounds: nat) -> Seq<ClassPair>
    decreases rounds,
{
    if rounds == 0 || !changes(provider, s) {
        s
    } else {
        settle(provider, merge_round(provider, s), (rounds - 1) as nat)
    }
}

/// Each of `rounds` rounds, run one after the other from `s`, merges something.
pub open spec fn keeps_changing<P: AlphaRelationsProvider>(provider: &P, s: Seq<ClassPair>, rounds: nat) -> bool
    decreases rounds,
{
    if rounds == 0 {
        true
    } else {
        changes(provider, s) && keeps_changing(provider, merge_round(provider, s), (rounds - 1) as nat)
    }
}

/// When the rounds stop before the limit, no two of the settled candidates,
/// the first before the second, can be merged.
pub proof fn lemma_settled_candidates_do_not_merge<P: AlphaRelationsProvider>(provider: &P, s: Seq<ClassPair>, rounds: nat)
    requires
        !keeps_changing(provider, s, rounds),
    ensures
        forall|a: int, b: int| 0 <= a < b < settle(provider, s, rounds).len()
            ==> !#[trigger] mergeable(provider, settle(provider, s, rounds)[a], settle(provider, s, rounds)[b]),
    decreases rounds,
{
    reveal(settle);
    if rounds > 0 && changes(provider, s) {
        lemma_settled_candidates_do_not_merge(provider, merge_round(provider, s), (rounds - 1) as nat);
        assert(settle(provider, s, rounds) == settle(provider, merge_round(provider, s), (rounds - 1) as nat));
    } else {
        assert(settle(provider, s, rounds) == s);
        assert forall|a: int, b: int| 0 <= a < b < s.len() implies !#[trigger] mergeable(provider, s[a], s[b]) by {
            if mergeable(provider, s[a], s[b]) {
                assert(changes(provider, s));
            }
        }
    }
}

/// `x` is the union, side by side, of the candidates of `s` at the
/// positions `ks`, of which there is at least one.
pub open spec fn is_union_at(s: Seq<ClassPair>, ks: Set<int>, x: ClassPair) -> bool {
    &&& exists|k: int| #[trigger] ks.contains(k)
    &&& forall|k: int| #[trigger] ks.contains(k) ==> 0 <= k < s.len()
    &&& forall|c: Seq<char>| #[trigger] x.0.contains(c) <==> exists|k: int| ks.contains(k) && #[trigger] s[k].0.contains(c)
    &&& forall|c: Seq<char>| #[trigger] x.1.contains(c) <==> exists|k: int| ks.contains(k) && #[trigger] s[k].1.contains(c)
}

/// `x` is the union of some candidates of `s`.
pub open spec fn is_union_of(s: Seq<ClassPair>, x: ClassPair) -> bool {
    exists|ks: Set<int>| #[trigger] is_union_at(s, ks, x)
}

/// `x` is the union of two candidates of `s`, the first before the second.
pub open spec fn is_pair_union(s: Seq<ClassPair>, x: ClassPair) -> bool {
    exists|a: int, b: int| 0 <= a < b < s.len() && x == union_pair(s[a], s[b])
}

/// `x` is one of the candidates of `s`.
pub open spec fn is_member(s: Seq<ClassPair>, x: ClassPair) -> bool {
    exists|k: int| 0 <= k < s.len() && x == s[k]
}

proof fn lemma_row_unions_members<P: AlphaRelationsProvider>(provider: &P, s: Seq<ClassPair>, i: int, j: int)
    requires
        0 <= i,
        j <= s.len(),
    ensures
        forall|m: int| 0 <= m < row_unions(provider, s, i, j).len() ==> #[trigger] is_pair_union(s, row_unions(provider, s, i, j)[m]),
    decreases j - i,
{
    if j > i + 1 {
        lemma_row_unions_members(provider, s, i, j - 1);
        let prev = row_unions(provider, s, i, j - 1);
        assert forall|m: int| 0 <= m < row_unions(provider, s, i, j).len() implies #[trigger] is_pair_union(s, row_unions(provider, s, i, j)[m]) by {
            if m < prev.len() {
                assert(row_unions(provider, s, i, j)[m] == prev[m]);
                assert(is_pair_union(s, prev[m]));
            } else {
                assert(row_unions(provider, s, i, j)[m] == union_pair(s[i], s[j - 1]));
            }
        }
    }
}

proof fn lemma_all_unions_members<P: AlphaRelationsProvider>(provider: &P, s: Seq<ClassPair>, i: int)
    requires
        i <= s.len(),
    ensures
        forall|m: int| 0 <= m < all_unions(provider, s, i).len() ==> #[trigger] is_pair_union(s, all_unions(provider, s, i)[m]),
    decreases i,
{
    if i > 0 {
        lemma_all_unions_members(provider, s, i - 1);
        lemma_row_unions_members(provider, s, i - 1, s.len() as int);
        let prev = all_unions(provider, s, i - 1);
        let row = row_unions(provider, s, i - 1, s.len() as int);
        assert forall|m: int| 0 <= m < all_unions(provider, s, i).len() implies #[trigger] is_pair_union(s, all_unions(provider, s, i)[m]) by {
            if m < prev.len() {
                assert(all_unions(provider, s, i)[m] == prev[m]);
                assert(is_pair_union(s, prev[m]));
            } else {
                assert(all_unions(provider, s, i)[m] == row[m - prev.len()]);
                assert(is_pair_union(s, row[m - prev.len()]));
            }
        }
    } else {
        assert(all_unions(provider, s, i).len() == 0);
    }
}

proof fn lemma_unmerged_members<P: AlphaRelationsProvider>(provider: &P, s: Seq<ClassPair>, i: int)
    requires
        i <= s.len(),
    ensures
        forall|m: int| 0 <= m < unmerged(provider, s, i).len() ==> #[trigger] is_member(s, unmerged(provider, s, i)[m]),
    decreases i,
{
    if i > 0 {
        lemma_unmerged_members(provider, s, i - 1);
        let prev = unmerged(provider, s, i - 1);
        assert forall|m: int| 0 <= m < unmerged(provider, s, i).len() implies #[trigger] is_member(s, unmerged(provider, s, i)[m]) by {
            if m < prev.len() {
                assert(unmerged(provider, s, i)[m] == prev[m]);
                assert(is_member(s, prev[m]));
            } else {
                assert(unmerged(provider, s, i)[m] == s[i - 1]);
            }
        }
    }
}

proof fn lemma_round_members_are_unions<P: AlphaRelationsProvider>(provider: &P, s: Seq<ClassPair>)
    ensures
        forall|m: int| 0 <= m < merge_round(provider, s).len() ==> #[trigger] is_union_of(s, merge_round(provider, s)[m]),
{
    let u = all_unions(provider, s, s.len() as int);
    let n = unmerged(provider, s, s.len() as int);
    lemma_all_unions_members(provider, s, s.len() as int);
    lemma_unmerged_members(provider, s, s.len() as int);
    assert forall|m: int| 0 <= m < merge_round(provider, s).len() implies #[trigger] is_union_of(s, merge_round(provider, s)[m]) by {
        let x = merge_round(provider, s)[m];
        if m < u.len() {
            assert(x == u[m]);
            assert(is_pair_union(s, u[m]));
            let (a, b) = choose|a: int, b: int| 0 <= a < b < s.len() && x == union_pair(s[a], s[b]);
            let ks = set![a, b];
            assert(ks.contains(a));
            assert forall|c: Seq<char>| #[trigger] x.0.contains(c) implies exists|k: int| ks.contains(k) && #[trigger] s[k].0.contains(c) by {
                if s[a].0.contains(c) {
                    assert(ks.contains(a));
                } else {
                    assert(ks.contains(b));
                }
            }
            assert forall|c: Seq<char>| #[trigger] x.1.contains(c) implies exists|k: int| ks.contains(k) && #[trigger] s[k].1.contains(c) by {
                if s[a].1.contains(c) {
                    assert(ks.contains(a));
                } else {
                    assert(ks.contains(b));
                }
            }
            assert(is_union_at(s, ks, x));
        } else {
            assert(x == n[m - u.len()]);
            assert(is_member(s, n[m - u.len()]));
            let k = choose|k: int| 0 <= k < s.len() && x == s[k];
            let ks = set![k];
            assert(ks.contains(k));
            assert forall|c: Seq<char>| #[trigger] x.0.contains(c) implies exists|q: int| ks.contains(q) && #[trigger] s[q].0.contains(c) by {
                assert(ks.contains(k));
            }
            assert forall|c: Seq<char>| #[trigger] x.1.contains(c) implies exists|q: int| ks.contains(q) && #[trigger] s[q].1.contains(c) by {
                assert(ks.contains(k));
            }
            assert(is_union_at(s, ks, x));
        }
    }
}

/// A union of unions of candidates of `s` is a union of candidates of `s`.
proof fn lemma_union_of_unions(s: Seq<ClassPair>, t: Seq<ClassPair>, x: ClassPair)
    requires
        forall|m: int| 0 <= m < t.len() ==> #[trigger] is_union_of(s, t[m]),
        is_union_of(t, x),
    ensures
        is_union_of(s, x),
{
    let kt = choose|ks: Set<int>| #[trigger] is_union_at(t, ks, x);
    let pick = |m: int| choose|ks: Set<int>| #[trigger] is_union_at(s, ks, t[m]);
    let ks = Set::new(|k: int| exists|m: int| kt.contains(m) && #[trigger] pick(m).contains(k));
    let m0 = choose|m: int| #[trigger] kt.contains(m);
    assert(is_union_of(s, t[m0]));
    let k0 = choose|k: int| #[trigger] pick(m0).contains(k);
    assert(ks.contains(k0));
    assert forall|k: int| #[trigger] ks.contains(k) implies 0 <= k < s.len() by {
        let m = choose|m: int| kt.contains(m) && #[trigger] pick(m).contains(k);
        assert(is_union_of(s, t[m]));
    }
    assert forall|c: Seq<char>| #[trigger] x.0.contains(c) <==> exists|k: int| ks.contains(k) && #[trigger] s[k].0.contains(c) by {
        if x.0.contains(c) {
            let m = choose|m: int| kt.contains(m) && #[trigger] t[m].0.contains(c);
            assert(is_union_of(s, t[m]));
            let k = choose|k: int| pick(m).contains(k) && #[trigger] s[k].0.contains(c);
            assert(ks.contains(k));
        }
        if exists|k: int| ks.contains(k) && #[trigger] s[k].0.contains(c) {
            let k = choose|k: int| ks.contains(k) && #[trigger] s[k].0.contains(c);
            let m = choose|m: int| kt.contains(m) && #[trigger] pick(m).contains(k);
            assert(is_union_of(s, t[m]));
            assert(t[m].0.contains(c));
        }
    }
    assert forall|c: Seq<char>| #[trigger] x.1.contains(c) <==> exists|k: int| ks.contains(k) && #[trigger] s[k].1.contains(c) by {
        if x.1.contains(c) {
            let m = choose|m: int| kt.contains(m) && #[trigger] t[m].1.contains(c);
            assert(is_union_of(s, t[m]));
            let k = choose|k: int| pick(m).contains(k) && #[trigger] s[k].1.contains(c);
            assert(ks.contains(k));
        }
        if exists|k: int| ks.contains(k) && #[trigger] s[k].1.contains(c) {
            let k = choose|k: int| ks.contains(k) && #[trigger] s[k].1.contains(c);
            let m = choose|m: int| kt.contains(m) && #[trigger] pick(m).contains(k);
            assert(is_union_of(s, t[m]));
            assert(t[m].1.contains(c));
        }
    }
    assert(is_union_at(s, ks, x));
}

/// Every settled candidate is the union of some of the candidates merging
/// started from.
pub proof fn lemma_settled_candidates_are_unions<P: AlphaRelationsProvider>(provider: &P, s: Seq<ClassPair>, rounds: nat)
    ensures
        forall|m: int| 0 <= m < settle(provider, s, rounds).len() ==> #[trigger] is_union_of(s, settle(provider, s, rounds)[m]),
    decreases rounds,
{
    reveal(settle);
    if rounds > 0 && changes(provider, s) {
        let t = merge_round(provider, s);
        lemma_settled_candidates_are_unions(provider, t, (rounds - 1) as nat);
        lemma_round_members_are_unions(provider, s);
        assert(settle(provider, s, rounds) == settle(provider, t, (rounds - 1) as nat));
        assert forall|m: int| 0 <= m < settle(provider, s, rounds).len() implies #[trigger] is_union_of(s, settle(provider, s, rounds)[m]) by {
            lemma_union_of_unions(s, t, settle(provider, t, (rounds - 1) as nat)[m]);
        }
    } else {
        assert(settle(provider, s, rounds) == s);
        assert forall|m: int| 0 <= m < s.len() implies #[trigger] is_union_of(s, s[m]) by {
            let ks = set![m];
            assert(ks.contains(m));
            assert forall|c: Seq<char>| #[trigger] s[m].0.contains(c) implies exists|k: int| ks.contains(k) && #[trigger] s[k].0.contains(c) by {
                assert(ks.contains(m));
            }
            assert forall|c: Seq<char>| #[trigger] s[m].1.contains(c) implies exists|k: int| ks.contains(k) && #[trigger] s[k].1.contains(c) by {
                assert(ks.contains(m));
            }
            assert(is_union_at(s, ks, s[m]));
        }
    }
}

} // verus!
