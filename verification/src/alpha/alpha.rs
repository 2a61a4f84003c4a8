//! Discovery of Petri nets with the alpha and alpha+ algorithms.
use vstd::prelude::*;
use crate::alpha::alpha_set::{
    AlphaSet, extension_is_alpha_set, full_subset, in_either, related, same_alpha_set, subset_of, valid_alpha_set,
    all_related, joined,
};
use crate::alpha::merge::{
    ClassPair, class_pair, union_pair, union_is_alpha_set, mergeable, row_unions, all_unions, scanned, marked_before, is_merged,
    unmerged, changes, merge_round, settle,
};
use crate::alpha::provider::{AlphaPlusRelationsProvider, AlphaRelationsProvider, DefaultAlphaRelationsProvider};
use crate::class_set::{ClassSet, lemma_subset_len};
use crate::event_log::{EventLog, Trace};
use crate::event_log_info::{EventLogInfo, directly_follows, is_class, is_start_class, is_end_class, log_without, total_events};
use crate::petri_net::{IdGenerator, Marking, PetriNet, Place, SingleMarking, Transition, EMPTY_PLACE_NAME, touches};

verus! {

/// Some trace holds two consecutive events of class `c`.
pub open spec fn one_length_loop(log: Seq<Seq<Seq<char>>>, c: Seq<char>) -> bool {
    exists|t: int, i: int| 0 <= t < log.len() && 0 <= i && i + 1 < log[t].len() && #[trigger] log[t][i] == c && log[t][i + 1] == c
}

/// The classes that repeat immediately somewhere in the log.
pub fn find_transitions_one_length_loop(log: &EventLog) -> (r: ClassSet)
    requires
        crate::alpha::provider::all_traces_at_least(log@, 1),
    ensures
        r.wf(),
        forall|c: Seq<char>| #[trigger] r@.contains(c) <==> one_length_loop(log@, c),
{
    let ghost l = log@;
    let traces = log.traces();
    let mut r = ClassSet::new();
    let mut t: usize = 0;
    while t < traces.len()
        invariant
            l == log@,
            crate::event_log::traces_view(traces@) == l,
            t <= l.len(),
            crate::alpha::provider::all_traces_at_least(l, 1),
            r.wf(),
            forall|c: Seq<char>| #[trigger] r@.contains(c) <==> one_length_loop(l.take(t as int), c),
        decreases traces.len() - t,
    {
        let trace: &Trace = &traces[t];
        let ghost tr = l[t as int];
        assert(trace@ == tr);
        let n = trace.len();
        let mut i: usize = 0;
        while i < n - 1
            invariant
                trace@ == tr,
                n == tr.len(),
                n >= 1,
                i <= n - 1,
                t < l.len(),
                tr == l[t as int],
                r.wf(),
                forall|c: Seq<char>| #[trigger] r@.contains(c) <==> (one_length_loop(l.take(t as int), c)
                    || exists|k: int| 0 <= k < i && #[trigger] tr[k] == c && tr[k + 1] == c),
            decreases n - 1 - i,
        {
            let x = trace.name_at(i);
            let y = trace.name_at(i + 1);
            if crate::text::str_eq(x.as_str(), y.as_str()) {
                r.insert(x.clone());
            }
            assert forall|c: Seq<char>| #[trigger] r@.contains(c) <==> (one_length_loop(l.take(t as int), c)
                || exists|k: int| 0 <= k < i + 1 && #[trigger] tr[k] == c && tr[k + 1] == c) by {
                if exists|k: int| 0 <= k < i + 1 && #[trigger] tr[k] == c && tr[k + 1] == c {
                    let k = choose|k: int| 0 <= k < i + 1 && #[trigger] tr[k] == c && tr[k + 1] == c;
                    if k < i {
                        assert(exists|k: int| 0 <= k < i && #[trigger] tr[k] == c && tr[k + 1] == c);
                    }
                }
                if c == tr[i as int] && tr[i as int] == tr[i + 1] {
                    assert(tr[i as int] == c && tr[i + 1] == c);
                }
            }
            i = i + 1;
        }
        assert forall|c: Seq<char>| #[trigger] r@.contains(c) <==> one_length_loop(l.take(t + 1), c) by {
            if one_length_loop(l.take(t + 1), c) {
                let (u, k) = choose|u: int, k: int|
                    0 <= u < l.take(t + 1).len() && 0 <= k && k + 1 < l.take(t + 1)[u].len() && #[trigger] l.take(t + 1)[u][k] == c
                        && l.take(t + 1)[u][k + 1] == c;
                if u < t {
                    assert(l.take(t as int)[u][k] == c);
                } else {
                    assert(tr[k] == c);
                }
            }
            if one_length_loop(l.take(t as int), c) {
                let (u, k) = choose|u: int, k: int|
                    0 <= u < l.take(t as int).len() && 0 <= k && k + 1 < l.take(t as int)[u].len()
                        && #[trigger] l.take(t as int)[u][k] == c && l.take(t as int)[u][k + 1] == c;
                assert(l.take(t + 1)[u][k] == c);
            }
            if exists|k: int| 0 <= k < n - 1 && #[trigger] tr[k] == c && tr[k + 1] == c {
                let k = choose|k: int| 0 <= k < n - 1 && #[trigger] tr[k] == c && tr[k + 1] == c;
                assert(l.take(t + 1)[t as int][k] == c);
            }
        }
        t = t + 1;
    }
    assert(l.take(l.len() as int) =~= l);
    r
}

/// Some set of `b` contains `x`.
pub open spec fn covers(b: Seq<(Seq<Seq<char>>, Seq<Seq<char>>)>, x: (Seq<Seq<char>>, Seq<Seq<char>>)) -> bool {
    exists|j: int| 0 <= j < b.len() && #[trigger] full_subset(x, b[j])
}

/// Every set of `a` is contained in some set of `b`.
pub open spec fn covered_by(a: Seq<(Seq<Seq<char>>, Seq<Seq<char>>)>, b: Seq<(Seq<Seq<char>>, Seq<Seq<char>>)>) -> bool {
    forall|i: int| 0 <= i < a.len() ==> #[trigger] covers(b, a[i])
}

pub open spec fn sets_view(v: Seq<AlphaSet>) -> Seq<(Seq<Seq<char>>, Seq<Seq<char>>)> {
    v.map_values(|s: AlphaSet| s@)
}

/// Both sides of `x` are drawn from `classes`.
pub open spec fn within(classes: Seq<Seq<char>>, x: (Seq<Seq<char>>, Seq<Seq<char>>)) -> bool {
    subset_of(x.0, classes) && subset_of(x.1, classes)
}

/// Every set of `v` is a well-formed alpha set over `classes`.
pub open spec fn all_valid<P: AlphaRelationsProvider>(provider: &P, classes: Seq<Seq<char>>, v: Seq<AlphaSet>) -> bool {
    forall|i: int| 0 <= i < v.len() ==> (#[trigger] v[i]).wf() && valid_alpha_set(provider, v[i].left(), v[i].right())
        && within(classes, v[i]@)
}

proof fn lemma_full_subset_transitive(
    x: (Seq<Seq<char>>, Seq<Seq<char>>),
    y: (Seq<Seq<char>>, Seq<Seq<char>>),
    z: (Seq<Seq<char>>, Seq<Seq<char>>),
)
    requires
        full_subset(x, y),
        full_subset(y, z),
    ensures
        full_subset(x, z),
{
}

/// If `y` is covered by `c` and `x` lies inside `y`, then `x` is covered by `c`.
proof fn lemma_covers_through(
    c: Seq<(Seq<Seq<char>>, Seq<Seq<char>>)>,
    x: (Seq<Seq<char>>, Seq<Seq<char>>),
    y: (Seq<Seq<char>>, Seq<Seq<char>>),
)
    requires
        full_subset(x, y),
        covers(c, y),
    ensures
        covers(c, x),
{
    let k = choose|k: int| 0 <= k < c.len() && #[trigger] full_subset(y, c[k]);
    lemma_full_subset_transitive(x, y, c[k]);
}

proof fn lemma_covered_transitive(
    a: Seq<(Seq<Seq<char>>, Seq<Seq<char>>)>,
    b: Seq<(Seq<Seq<char>>, Seq<Seq<char>>)>,
    c: Seq<(Seq<Seq<char>>, Seq<Seq<char>>)>,
)
    requires
        covered_by(a, b),
        covered_by(b, c),
    ensures
        covered_by(a, c),
{
    assert forall|i: int| 0 <= i < a.len() implies #[trigger] covers(c, a[i]) by {
        assert(covers(b, a[i]));
        let j = choose|j: int| 0 <= j < b.len() && #[trigger] full_subset(a[i], b[j]);
        assert(covers(c, b[j]));
        lemma_covers_through(c, a[i], b[j]);
    }
}

/// The union of two sets whose extension is an alpha set is a valid alpha set.
proof fn lemma_extension_valid<P: AlphaRelationsProvider>(provider: &P, a: AlphaSet, b: AlphaSet, u: AlphaSet)
    requires
        extension_is_alpha_set(provider, a@, b@),
        forall|x: Seq<char>| u.left().contains(x) <==> (a.left().contains(x) || b.left().contains(x)),
        forall|x: Seq<char>| u.right().contains(x) <==> (a.right().contains(x) || b.right().contains(x)),
    ensures
        valid_alpha_set(provider, u.left(), u.right()),
        full_subset(a@, u@),
        full_subset(b@, u@),
{
    assert forall|x: Seq<char>, y: Seq<char>| u.left().contains(x) && u.right().contains(y) implies #[trigger] related(provider, x, y, true) by {
        assert(in_either(a@.0, b@.0, x) && in_either(a@.1, b@.1, y));
    }
    assert forall|x: Seq<char>, y: Seq<char>| u.left().contains(x) && u.left().contains(y) implies #[trigger] related(provider, x, y, false) by {
        assert(in_either(a@.0, b@.0, x) && in_either(a@.0, b@.0, y));
    }
    assert forall|x: Seq<char>, y: Seq<char>| u.right().contains(x) && u.right().contains(y) implies #[trigger] related(provider, x, y, false) by {
        assert(in_either(a@.1, b@.1, x) && in_either(a@.1, b@.1, y));
    }
    assert forall|x: Seq<char>| a@.0.contains(x) implies u@.0.contains(x) by {
        assert(a.left().contains(x));
    }
    assert forall|x: Seq<char>| a@.1.contains(x) implies u@.1.contains(x) by {
        assert(a.right().contains(x));
    }
    assert forall|x: Seq<char>| b@.0.contains(x) implies u@.0.contains(x) by {
        assert(b.left().contains(x));
    }
    assert forall|x: Seq<char>| b@.1.contains(x) implies u@.1.contains(x) by {
        assert(b.right().contains(x));
    }
}

/// Covering is kept when `a` grows into `b`.
proof fn lemma_covers_grow(a: Seq<AlphaSet>, b: Seq<AlphaSet>, x: (Seq<Seq<char>>, Seq<Seq<char>>))
    requires
        covers(sets_view(a), x),
        a.len() <= b.len(),
        forall|i: int| 0 <= i < a.len() ==> #[trigger] b[i] == a[i],
    ensures
        covers(sets_view(b), x),
{
    let k = choose|k: int| 0 <= k < sets_view(a).len() && #[trigger] full_subset(x, sets_view(a)[k]);
    assert(sets_view(b)[k] == b[k]@);
    assert(sets_view(a)[k] == a[k]@);
    assert(full_subset(x, sets_view(b)[k]));
}

/// Appending a valid set keeps a vector valid.
proof fn lemma_all_valid_grow<P: AlphaRelationsProvider>(
    provider: &P,
    classes: Seq<Seq<char>>,
    a: Seq<AlphaSet>,
    b: Seq<AlphaSet>,
    x: AlphaSet,
)
    requires
        all_valid(provider, classes, a),
        x.wf(),
        valid_alpha_set(provider, x.left(), x.right()),
        within(classes, x@),
        b == a || b == a.push(x),
    ensures
        all_valid(provider, classes, b),
{
    assert forall|i: int| 0 <= i < b.len() implies (#[trigger] b[i]).wf() && valid_alpha_set(provider, b[i].left(), b[i].right())
        && within(classes, b[i]@) by {
        if i < a.len() {
            assert(b[i] == a[i]);
        } else {
            assert(b[i] == x);
        }
    }
}

/// The candidates of `v` as pairs of class sets.
pub open spec fn pairs_view(v: Seq<AlphaSet>) -> Seq<ClassPair> {
    v.map_values(|s: AlphaSet| class_pair(s@))
}

/// The test of the merge loop, `(is_left_subset || is_right_subset) &&
/// can_extend`, is `mergeable` on the class sets.
proof fn lemma_merge_test<P: AlphaRelationsProvider>(provider: &P, a: AlphaSet, b: AlphaSet)
    ensures
        ((subset_of(a.left(), b.left()) || subset_of(a.right(), b.right())) && extension_is_alpha_set(provider, a@, b@))
            == mergeable(provider, class_pair(a@), class_pair(b@)),
{
    let x = class_pair(a@);
    let y = class_pair(b@);
    if subset_of(a.left(), b.left()) {
        assert(x.0.subset_of(y.0));
    }
    if x.0.subset_of(y.0) {
        assert forall|c: Seq<char>| a.left().contains(c) implies b.left().contains(c) by {
            assert(x.0.contains(c));
        }
    }
    if subset_of(a.right(), b.right()) {
        assert(x.1.subset_of(y.1));
    }
    if x.1.subset_of(y.1) {
        assert forall|c: Seq<char>| a.right().contains(c) implies b.right().contains(c) by {
            assert(x.1.contains(c));
        }
    }
    let u = union_pair(x, y);
    assert forall|c: Seq<char>| #[trigger] u.0.contains(c) == in_either(a@.0, b@.0, c) by {}
    assert forall|c: Seq<char>| #[trigger] u.1.contains(c) == in_either(a@.1, b@.1, c) by {}
    if extension_is_alpha_set(provider, a@, b@) {
        assert(union_is_alpha_set(provider, x, y));
    }
    if union_is_alpha_set(provider, x, y) {
        assert forall|c: Seq<char>, d: Seq<char>| in_either(a@.0, b@.0, c) && in_either(a@.1, b@.1, d) implies #[trigger] related(provider, c, d, true) by {
            assert(u.0.contains(c) && u.1.contains(d));
        }
        assert forall|c: Seq<char>, d: Seq<char>| in_either(a@.0, b@.0, c) && in_either(a@.0, b@.0, d) implies #[trigger] related(provider, c, d, false) by {
            assert(u.0.contains(c) && u.0.contains(d));
        }
        assert forall|c: Seq<char>, d: Seq<char>| in_either(a@.1, b@.1, c) && in_either(a@.1, b@.1, d) implies #[trigger] related(provider, c, d, false) by {
            assert(u.1.contains(c) && u.1.contains(d));
        }
    }
}

/// Merges candidates round by round, as `settle` states: each round replaces
/// the merged pairs by their unions and keeps the candidates merged with
/// none, until a round merges nothing (or `u64::MAX` rounds have run).
fn extend_until_stable<P: AlphaRelationsProvider>(
    initial: Vec<AlphaSet>,
    provider: &P,
    Ghost(classes): Ghost<Seq<Seq<char>>>,
) -> (r: Vec<AlphaSet>)
    requires
        provider.wf(),
        all_valid(provider, classes, initial@),
    ensures
        all_valid(provider, classes, r@),
        covered_by(sets_view(initial@), sets_view(r@)),
        pairs_view(r@) == settle(provider, pairs_view(initial@), u64::MAX as nat),
{
    let ghost init = sets_view(initial@);
    let ghost start = pairs_view(initial@);
    let mut current = initial;
    let mut fuel: u64 = u64::MAX;
    proof {
        assert forall|i: int| 0 <= i < init.len() implies #[trigger] covers(sets_view(current@), init[i]) by {
            assert(full_subset(init[i], sets_view(current@)[i]));
        }
    }
    while fuel > 0
        invariant
            provider.wf(),
            init == sets_view(initial@),
            start == pairs_view(initial@),
            all_valid(provider, classes, current@),
            covered_by(init, sets_view(current@)),
            settle(provider, start, u64::MAX as nat) == settle(provider, pairs_view(current@), fuel as nat),
        decreases fuel,
    {
        let ghost s = pairs_view(current@);
        proof {
            reveal(settle);
        }
        fuel = fuel - 1;
        let n = current.len();
        let mut marked: Vec<bool> = Vec::new();
        let mut k: usize = 0;
        while k < n
            invariant
                k <= n,
                marked@.len() == k,
                forall|m: int| 0 <= m < k ==> !(#[trigger] marked@[m]),
            decreases n - k,
        {
            marked.push(false);
            k = k + 1;
        }
        let mut extended: Vec<AlphaSet> = Vec::new();
        let mut any_change = false;
        let mut i: usize = 0;
        while i < n
            invariant
                provider.wf(),
                covered_by(init, sets_view(current@)),
                n == current@.len(),
                s == pairs_view(current@),
                all_valid(provider, classes, current@),
                all_valid(provider, classes, extended@),
                marked@.len() == n,
                i <= n,
                pairs_view(extended@) == all_unions(provider, s, i as int),
                forall|m: int| 0 <= m < n ==> #[trigger] marked@[m] == marked_before(provider, s, i as int, 0, m),
                any_change == exists|a: int, b: int| 0 <= a < b < n && scanned(a, b, i as int, 0) && #[trigger] mergeable(provider, s[a], s[b]),
                forall|m: int| 0 <= m < n && #[trigger] marked@[m] ==> covers(sets_view(extended@), current@[m]@),
            decreases n - i,
        {
            let mut j: usize = i + 1;
            while j < n
                invariant
                    provider.wf(),
                    covered_by(init, sets_view(current@)),
                    n == current@.len(),
                    s == pairs_view(current@),
                    all_valid(provider, classes, current@),
                    all_valid(provider, classes, extended@),
                    marked@.len() == n,
                    i < n,
                    i + 1 <= j <= n,
                    pairs_view(extended@) == all_unions(provider, s, i as int) + row_unions(provider, s, i as int, j as int),
                    forall|m: int| 0 <= m < n ==> #[trigger] marked@[m] == marked_before(provider, s, i as int, j as int, m),
                    any_change == exists|a: int, b: int| 0 <= a < b < n && scanned(a, b, i as int, j as int) && #[trigger] mergeable(provider, s[a], s[b]),
                    forall|m: int| 0 <= m < n && #[trigger] marked@[m] ==> covers(sets_view(extended@), current@[m]@),
                decreases n - j,
            {
                let first_set = &current[i];
                let second_set = &current[j];
                proof {
                    assert(current@[i as int].wf() && current@[j as int].wf());
                    lemma_merge_test(provider, *first_set, *second_set);
                    assert(s[i as int] == class_pair(first_set@));
                    assert(s[j as int] == class_pair(second_set@));
                }
                let should_extend = (first_set.is_left_subset(second_set) || first_set.is_right_subset(second_set))
                    && first_set.can_extend(second_set, provider);
                let ghost old_ext = extended@;
                let ghost old_marked = marked@;
                let ghost old_change = any_change;
                if should_extend {
                    let u = first_set.extend(second_set);
                    proof {
                        lemma_extension_valid(provider, *first_set, *second_set, u);
                        assert(within(classes, current@[i as int]@));
                        assert(within(classes, current@[j as int]@));
                        assert forall|x: Seq<char>| u@.0.contains(x) implies classes.contains(x) by {
                            assert(u.left().contains(x));
                        }
                        assert forall|x: Seq<char>| u@.1.contains(x) implies classes.contains(x) by {
                            assert(u.right().contains(x));
                        }
                        assert(class_pair(u@) =~= union_pair(s[i as int], s[j as int])) by {
                            assert(class_pair(u@).0 =~= union_pair(s[i as int], s[j as int]).0) by {
                                assert forall|x: Seq<char>| class_pair(u@).0.contains(x) == union_pair(s[i as int], s[j as int]).0.contains(x) by {
                                    assert(u.left().contains(x) == u@.0.contains(x));
                                }
                            }
                            assert(class_pair(u@).1 =~= union_pair(s[i as int], s[j as int]).1) by {
                                assert forall|x: Seq<char>| class_pair(u@).1.contains(x) == union_pair(s[i as int], s[j as int]).1.contains(x) by {
                                    assert(u.right().contains(x) == u@.1.contains(x));
                                }
                            }
                        }
                    }
                    extended.push(u);
                    marked.set(i, true);
                    marked.set(j, true);
                    any_change = true;
                    proof {
                        assert(pairs_view(extended@) =~= pairs_view(old_ext).push(class_pair(u@)));
                        lemma_all_valid_grow(provider, classes, old_ext, extended@, u);
                        assert(sets_view(extended@)[old_ext.len() as int] == u@);
                        assert(full_subset(u@, sets_view(extended@)[old_ext.len() as int]));
                        assert(covers(sets_view(extended@), u@));
                        lemma_covers_through(sets_view(extended@), current@[i as int]@, u@);
                        lemma_covers_through(sets_view(extended@), current@[j as int]@, u@);
                        assert forall|m: int| 0 <= m < n && #[trigger] marked@[m] implies covers(sets_view(extended@), current@[m]@) by {
                            if m != i && m != j {
                                assert(old_marked[m]);
                                lemma_covers_grow(old_ext, extended@, current@[m]@);
                            }
                        }
                    }
                }
                proof {
                    let si = i as int;
                    let sj = j as int;
                    assert(row_unions(provider, s, si, sj + 1) == (if mergeable(provider, s[si], s[sj]) {
                        row_unions(provider, s, si, sj).push(union_pair(s[si], s[sj]))
                    } else {
                        row_unions(provider, s, si, sj)
                    }));
                    assert(pairs_view(extended@) =~= all_unions(provider, s, si) + row_unions(provider, s, si, sj + 1));
                    assert forall|m: int| 0 <= m < n implies #[trigger] marked@[m] == marked_before(provider, s, si, sj + 1, m) by {
                        if marked_before(provider, s, si, sj + 1, m) {
                            let (a, b) = choose|a: int, b: int| 0 <= a < b < s.len() && scanned(a, b, si, sj + 1) && (a == m || b == m)
                                && #[trigger] mergeable(provider, s[a], s[b]);
                            if scanned(a, b, si, sj) {
                                assert(old_marked[m]);
                            }
                        }
                        if old_marked[m] {
                            let (a, b) = choose|a: int, b: int| 0 <= a < b < s.len() && scanned(a, b, si, sj) && (a == m || b == m)
                                && #[trigger] mergeable(provider, s[a], s[b]);
                            assert(scanned(a, b, si, sj + 1));
                        }
                        if should_extend && (m == si || m == sj) {
                            assert(scanned(si, sj, si, sj + 1));
                        }
                    }
                    if any_change {
                        if old_change {
                            let (a, b) = choose|a: int, b: int| 0 <= a < b < n && scanned(a, b, si, sj) && #[trigger] mergeable(provider, s[a], s[b]);
                            assert(scanned(a, b, si, sj + 1));
                        } else {
                            assert(scanned(si, sj, si, sj + 1) && mergeable(provider, s[si], s[sj]));
                        }
                    }
                    if exists|a: int, b: int| 0 <= a < b < n && scanned(a, b, si, sj + 1) && #[trigger] mergeable(provider, s[a], s[b]) {
                        let (a, b) = choose|a: int, b: int| 0 <= a < b < n && scanned(a, b, si, sj + 1) && #[trigger] mergeable(provider, s[a], s[b]);
                        if !(a == si && b == sj) {
                            assert(scanned(a, b, si, sj));
                        }
                    }
                }
                j = j + 1;
            }
            proof {
                let si = i as int;
                assert(all_unions(provider, s, si + 1) == all_unions(provider, s, si) + row_unions(provider, s, si, s.len() as int));
                assert forall|m: int| 0 <= m < n implies #[trigger] marked@[m] == marked_before(provider, s, si + 1, 0, m) by {
                    if marked_before(provider, s, si + 1, 0, m) {
                        let (a, b) = choose|a: int, b: int| 0 <= a < b < s.len() && scanned(a, b, si + 1, 0) && (a == m || b == m)
                            && #[trigger] mergeable(provider, s[a], s[b]);
                        assert(scanned(a, b, si, n as int));
                    }
                    if marked_before(provider, s, si, n as int, m) {
                        let (a, b) = choose|a: int, b: int| 0 <= a < b < s.len() && scanned(a, b, si, n as int) && (a == m || b == m)
                            && #[trigger] mergeable(provider, s[a], s[b]);
                        assert(scanned(a, b, si + 1, 0));
                    }
                }
                if any_change {
                    let (a, b) = choose|a: int, b: int| 0 <= a < b < n && scanned(a, b, si, n as int) && #[trigger] mergeable(provider, s[a], s[b]);
                    assert(scanned(a, b, si + 1, 0));
                }
                if exists|a: int, b: int| 0 <= a < b < n && scanned(a, b, si + 1, 0) && #[trigger] mergeable(provider, s[a], s[b]) {
                    let (a, b) = choose|a: int, b: int| 0 <= a < b < n && scanned(a, b, si + 1, 0) && #[trigger] mergeable(provider, s[a], s[b]);
                    assert(scanned(a, b, si, n as int));
                }
            }
            i = i + 1;
        }
        if !any_change {
            proof {
                assert(!changes(provider, s)) by {
                    if changes(provider, s) {
                        let (a, b) = choose|a: int, b: int| 0 <= a < b < s.len() && #[trigger] mergeable(provider, s[a], s[b]);
                        assert(scanned(a, b, n as int, 0));
                    }
                }
                assert(settle(provider, s, (fuel + 1) as nat) == s);
            }
            return current;
        }
        let ghost unions = pairs_view(extended@);
        assert(unions == all_unions(provider, s, s.len() as int));
        let mut i: usize = 0;
        while i < n
            invariant
                provider.wf(),
                covered_by(init, sets_view(current@)),
                n == current@.len(),
                s == pairs_view(current@),
                unions == all_unions(provider, s, n as int),
                all_valid(provider, classes, current@),
                all_valid(provider, classes, extended@),
                marked@.len() == n,
                i <= n,
                pairs_view(extended@) == unions + unmerged(provider, s, i as int),
                forall|m: int| 0 <= m < n ==> #[trigger] marked@[m] == is_merged(provider, s, m),
                forall|m: int| 0 <= m < n && #[trigger] marked@[m] ==> covers(sets_view(extended@), current@[m]@),
                forall|m: int| 0 <= m < i ==> #[trigger] covers(sets_view(extended@), current@[m]@),
            decreases n - i,
        {
            let ghost old_ext = extended@;
            if !marked[i] {
                let c = current[i].clone_alpha_set();
                assert(within(classes, current@[i as int]@));
                extended.push(c);
                proof {
                    assert(pairs_view(extended@) =~= pairs_view(old_ext).push(class_pair(c@)));
                    assert(class_pair(c@) == s[i as int]);
                    lemma_all_valid_grow(provider, classes, old_ext, extended@, c);
                    assert(sets_view(extended@)[old_ext.len() as int] == c@);
                    assert(full_subset(c@, sets_view(extended@)[old_ext.len() as int]));
                    assert forall|m: int| 0 <= m < n && #[trigger] marked@[m] implies covers(sets_view(extended@), current@[m]@) by {
                        lemma_covers_grow(old_ext, extended@, current@[m]@);
                    }
                    assert forall|m: int| 0 <= m < i + 1 implies #[trigger] covers(sets_view(extended@), current@[m]@) by {
                        if m != i {
                            assert(covers(sets_view(old_ext), current@[m]@));
                            lemma_covers_grow(old_ext, extended@, current@[m]@);
                        }
                    }
                }
            } else {
                assert(marked@[i as int]);
            }
            proof {
                assert(unmerged(provider, s, i + 1) == (if is_merged(provider, s, i as int) {
                    unmerged(provider, s, i as int)
                } else {
                    unmerged(provider, s, i as int).push(s[i as int])
                }));
                assert(pairs_view(extended@) =~= unions + unmerged(provider, s, i + 1));
            }
            i = i + 1;
        }
        proof {
            assert(sets_view(current@).len() == n);
            assert forall|m: int| 0 <= m < sets_view(current@).len() implies #[trigger] covers(sets_view(extended@), sets_view(current@)[m]) by {
                assert(marked@[m] || m < n);
                assert(sets_view(current@)[m] == current@[m]@);
            }
            lemma_covered_transitive(init, sets_view(current@), sets_view(extended@));
            assert(changes(provider, s)) by {
                let (a, b) = choose|a: int, b: int| 0 <= a < b < n && scanned(a, b, n as int, 0) && #[trigger] mergeable(provider, s[a], s[b]);
            }
            assert(pairs_view(extended@) == merge_round(provider, s));
            assert(settle(provider, s, (fuel + 1) as nat) == settle(provider, merge_round(provider, s), fuel as nat));
        }
        current = extended;
    }
    proof {
        reveal(settle);
    }
    current
}

/// No other set of `v` strictly contains `x`: every set of `v` that holds
/// `x` holds the same classes.
pub open spec fn is_maximal(v: Seq<(Seq<Seq<char>>, Seq<Seq<char>>)>, x: (Seq<Seq<char>>, Seq<Seq<char>>)) -> bool {
    forall|j: int| 0 <= j < v.len() && #[trigger] full_subset(x, v[j]) ==> same_alpha_set(x, v[j])
}

pub open spec fn set_size(x: (Seq<Seq<char>>, Seq<Seq<char>>)) -> int {
    (x.0.len() + x.1.len()) as int
}

/// Every set of `v` that lies within `classes` is held by a maximal set of `v`.
proof fn lemma_covered_by_maximal(classes: Seq<Seq<char>>, v: Seq<AlphaSet>, x: (Seq<Seq<char>>, Seq<Seq<char>>), k: int)
    requires
        classes.no_duplicates(),
        forall|i: int| 0 <= i < v.len() ==> (#[trigger] v[i]).wf() && within(classes, v[i]@),
        0 <= k < v.len(),
        full_subset(x, v[k]@),
    ensures
        exists|m: int| 0 <= m < v.len() && is_maximal(sets_view(v), #[trigger] v[m]@) && full_subset(x, v[m]@),
    decreases 2 * classes.len() - set_size(v[k]@),
{
    let sv = sets_view(v);
    v[k].lemma_no_duplicates();
    lemma_subset_len(v[k]@.0, classes);
    lemma_subset_len(v[k]@.1, classes);
    if is_maximal(sv, v[k]@) {
        assert(sv[k] == v[k]@);
    } else {
        let j = choose|j: int| 0 <= j < sv.len() && #[trigger] full_subset(v[k]@, sv[j]) && !same_alpha_set(v[k]@, sv[j]);
        assert(sv[j] == v[j]@);
        v[j].lemma_no_duplicates();
        lemma_subset_len(v[k]@.0, v[j]@.0);
        lemma_subset_len(v[k]@.1, v[j]@.1);
        lemma_subset_len(v[j]@.0, classes);
        lemma_subset_len(v[j]@.1, classes);
        lemma_full_subset_transitive(x, v[k]@, v[j]@);
        lemma_covered_by_maximal(classes, v, x, j);
    }
}

/// `x` is a maximal set of `v`.
pub open spec fn maximal_in(v: Seq<AlphaSet>, x: (Seq<Seq<char>>, Seq<Seq<char>>)) -> bool {
    exists|k: int| 0 <= k < v.len() && x == #[trigger] v[k]@ && is_maximal(sets_view(v), v[k]@)
}

/// Whether some set of `v` holds the same classes as `x`.
fn holds_same(v: &Vec<AlphaSet>, x: &AlphaSet) -> (r: bool)
    requires
        x.wf(),
        forall|q: int| 0 <= q < v@.len() ==> (#[trigger] v@[q]).wf(),
    ensures
        r == exists|q: int| 0 <= q < v@.len() && #[trigger] same_alpha_set(v@[q]@, x@),
{
    let mut q: usize = 0;
    while q < v.len()
        invariant
            x.wf(),
            forall|k: int| 0 <= k < v@.len() ==> (#[trigger] v@[k]).wf(),
            q <= v@.len(),
            forall|k: int| 0 <= k < q ==> !#[trigger] same_alpha_set(v@[k]@, x@),
        decreases v.len() - q,
    {
        if v[q].set_equals(x) {
            assert(same_alpha_set(v@[q as int]@, x@));
            return true;
        }
        q = q + 1;
    }
    false
}

/// The sets of `current` that no other set strictly contains, in order; a
/// set holding the same classes as one already kept is not kept again.
fn maximal_sets(current: &Vec<AlphaSet>) -> (r: Vec<AlphaSet>)
    requires
        forall|i: int| 0 <= i < current@.len() ==> (#[trigger] current@[i]).wf(),
    ensures
        forall|i: int| 0 <= i < r@.len() ==> (#[trigger] r@[i]).wf() && maximal_in(current@, r@[i]@),
        forall|k: int| 0 <= k < current@.len() && is_maximal(sets_view(current@), #[trigger] current@[k]@) ==> exists|i: int|
            0 <= i < r@.len() && #[trigger] same_alpha_set(r@[i]@, current@[k]@),
        forall|i: int, j: int| 0 <= i < j < r@.len() ==> !same_alpha_set(#[trigger] r@[i]@, #[trigger] r@[j]@),
{
    let ghost sv = sets_view(current@);
    let n = current.len();
    let mut r: Vec<AlphaSet> = Vec::new();
    let mut i: usize = 0;
    while i < n
        invariant
            n == current@.len(),
            sv == sets_view(current@),
            forall|q: int| 0 <= q < current@.len() ==> (#[trigger] current@[q]).wf(),
            i <= n,
            forall|q: int| 0 <= q < r@.len() ==> (#[trigger] r@[q]).wf() && maximal_in(current@, r@[q]@),
            forall|k: int| 0 <= k < i && is_maximal(sv, #[trigger] current@[k]@) ==> exists|q: int|
                0 <= q < r@.len() && #[trigger] same_alpha_set(r@[q]@, current@[k]@),
            forall|a: int, b: int| 0 <= a < b < r@.len() ==> !same_alpha_set(#[trigger] r@[a]@, #[trigger] r@[b]@),
        decreases n - i,
    {
        let mut maximal = true;
        let mut j: usize = 0;
        while j < n
            invariant
                n == current@.len(),
                sv == sets_view(current@),
                forall|q: int| 0 <= q < current@.len() ==> (#[trigger] current@[q]).wf(),
                i < n,
                j <= n,
                maximal == forall|q: int| 0 <= q < j && #[trigger] full_subset(current@[i as int]@, sv[q])
                    ==> same_alpha_set(current@[i as int]@, sv[q]),
            decreases n - j,
        {
            assert(sv[j as int] == current@[j as int]@);
            let ghost before = maximal;
            if !current[i].set_equals(&current[j]) && current[i].is_full_subset(&current[j]) {
                maximal = false;
                assert(full_subset(current@[i as int]@, sv[j as int]) && !same_alpha_set(current@[i as int]@, sv[j as int]));
            }
            proof {
                if !before {
                    let q = choose|q: int| 0 <= q < j && #[trigger] full_subset(current@[i as int]@, sv[q])
                        && !same_alpha_set(current@[i as int]@, sv[q]);
                    assert(0 <= q < j + 1 && full_subset(current@[i as int]@, sv[q]) && !same_alpha_set(current@[i as int]@, sv[q]));
                }
            }
            j = j + 1;
        }
        let ghost old_r = r@;
        let seen = holds_same(&r, &current[i]);
        if maximal && !seen {
            let c = current[i].clone_alpha_set();
            r.push(c);
            assert(r@[old_r.len() as int]@ == current@[i as int]@);
        }
        proof {
            assert forall|k: int| 0 <= k < i + 1 && is_maximal(sv, #[trigger] current@[k]@) implies exists|q: int|
                0 <= q < r@.len() && #[trigger] same_alpha_set(r@[q]@, current@[k]@) by {
                if k < i {
                    let q = choose|q: int| 0 <= q < old_r.len() && #[trigger] same_alpha_set(old_r[q]@, current@[k]@);
                    assert(r@[q] == old_r[q]);
                } else if seen {
                    let q = choose|q: int| 0 <= q < old_r.len() && #[trigger] same_alpha_set(old_r[q]@, current@[k]@);
                    assert(r@[q] == old_r[q]);
                } else {
                    assert(r@[old_r.len() as int]@ == current@[k]@);
                    assert(same_alpha_set(r@[old_r.len() as int]@, current@[k]@));
                }
            }
            assert forall|q: int| 0 <= q < r@.len() implies (#[trigger] r@[q]).wf() && maximal_in(current@, r@[q]@) by {
                if q < old_r.len() {
                    assert(r@[q] == old_r[q]);
                } else {
                    assert(r@[q]@ == current@[i as int]@);
                    assert(is_maximal(sets_view(current@), current@[i as int]@));
                }
            }
            assert forall|a: int, b: int| 0 <= a < b < r@.len() implies !same_alpha_set(#[trigger] r@[a]@, #[trigger] r@[b]@) by {
                assert(r@[a] == old_r[a]);
                if b < old_r.len() {
                    assert(r@[b] == old_r[b]);
                } else {
                    assert(r@[b]@ == current@[i as int]@);
                    assert(!same_alpha_set(old_r[a]@, current@[i as int]@));
                }
            }
        }
        i = i + 1;
    }
    assert(sv == sets_view(current@));
    r
}

/// `x` is `({a}, {b})`.
pub open spec fn is_pair_set(x: (Seq<Seq<char>>, Seq<Seq<char>>), a: Seq<char>, b: Seq<char>) -> bool {
    x.0 == seq![a] && forall|y: Seq<char>| x.1.contains(y) <==> y == b
}

/// `({a}, {b})` is a starting place of the alpha algorithm: `b` directly
/// follows `a`, `a` causes `b`, and neither class is related to itself.
pub open spec fn initial_pair<P: AlphaRelationsProvider>(provider: &P, log: Seq<Seq<Seq<char>>>, a: Seq<char>, b: Seq<char>) -> bool {
    &&& directly_follows(log, a, b)
    &&& provider.unrelated(a, a)
    &&& provider.causal(a, b)
    &&& provider.unrelated(b, b)
}

proof fn lemma_follows_classes(log: Seq<Seq<Seq<char>>>, a: Seq<char>, b: Seq<char>)
    requires
        directly_follows(log, a, b),
    ensures
        is_class(log, a),
        is_class(log, b),
{
    let (t, i) = choose|t: int, i: int|
        0 <= t < log.len() && 0 <= i && i + 1 < log[t].len() && #[trigger] log[t][i] == a && log[t][i + 1] == b;
    assert(log[t][i] == a);
    assert(log[t][i + 1] == b);
}

/// `x` is `({a}, {b})` for a starting pair `(a, b)`.
pub open spec fn is_initial_set<P: AlphaRelationsProvider>(provider: &P, log: Seq<Seq<Seq<char>>>, x: (Seq<Seq<char>>, Seq<Seq<char>>)) -> bool {
    exists|a: Seq<char>, b: Seq<char>| #[trigger] is_pair_set(x, a, b) && initial_pair(provider, log, a, b)
}

/// Some set of `v` is `({a}, {b})`.
pub open spec fn has_pair_set(v: Seq<AlphaSet>, a: Seq<char>, b: Seq<char>) -> bool {
    exists|i: int| 0 <= i < v.len() && #[trigger] is_pair_set(v[i]@, a, b)
}

proof fn lemma_has_pair_set_grow(v: Seq<AlphaSet>, w: Seq<AlphaSet>, a: Seq<char>, b: Seq<char>)
    requires
        has_pair_set(v, a, b),
        v.len() <= w.len(),
        forall|i: int| 0 <= i < v.len() ==> #[trigger] w[i] == v[i],
    ensures
        has_pair_set(w, a, b),
{
    let i = choose|i: int| 0 <= i < v.len() && #[trigger] is_pair_set(v[i]@, a, b);
    assert(w[i] == v[i]);
}

/// The places `({a}, {b})` from which the alpha algorithm grows its places.
fn initial_alpha_sets<P: AlphaRelationsProvider>(info: &EventLogInfo, provider: &P) -> (r: Vec<AlphaSet>)
    requires
        info.wf(),
        provider.wf(),
    ensures
        all_valid(provider, info.all_event_classes_view(), r@),
        forall|i: int| 0 <= i < r@.len() ==> #[trigger] is_initial_set(provider, info.log(), r@[i]@),
        forall|a: Seq<char>, b: Seq<char>| #[trigger] initial_pair(provider, info.log(), a, b) ==> has_pair_set(r@, a, b),
        forall|i: int, j: int| 0 <= i < j < r@.len() ==> class_pair(#[trigger] r@[i]@) != class_pair(#[trigger] r@[j]@),
{
    let classes = info.all_event_classes();
    let dfg = info.dfg_info();
    let ghost cv = info.all_event_classes_view();
    let ghost log = info.log();
    let mut r: Vec<AlphaSet> = Vec::new();
    let ghost mut keys: Seq<(Seq<char>, Seq<char>)> = Seq::empty();
    proof {
        crate::class_set::lemma_sorted_no_duplicates(cv);
    }
    let mut ci: usize = 0;
    while ci < classes.len()
        invariant
            cv.no_duplicates(),
            keys.len() == r@.len(),
            forall|i: int| 0 <= i < r@.len() ==> #[trigger] is_pair_set(r@[i]@, keys[i].0, keys[i].1),
            forall|i: int| 0 <= i < keys.len() ==> cv.take(ci as int).contains(#[trigger] keys[i].0),
            forall|i: int, j: int| 0 <= i < j < keys.len() ==> #[trigger] keys[i] != #[trigger] keys[j],
            info.wf(),
            provider.wf(),
            classes@ == cv,
            cv == info.all_event_classes_view(),
            log == info.log(),
            dfg.wf(),
            dfg.log() == log,
            forall|c: Seq<char>| #[trigger] cv.contains(c) <==> is_class(log, c),
            ci <= cv.len(),
            all_valid(provider, cv, r@),
            forall|i: int| 0 <= i < r@.len() ==> #[trigger] is_initial_set(provider, log, r@[i]@),
            forall|a: Seq<char>, b: Seq<char>| #[trigger] initial_pair(provider, log, a, b) && cv.take(ci as int).contains(a)
                ==> has_pair_set(r@, a, b),
        decreases cv.len() - ci,
    {
        let class = classes.get(ci);
        let followed = dfg.get_followed_events(class.as_str());
        let ghost r_before = r@;
        proof {
            assert(!cv.take(ci as int).contains(class@)) by {
                if cv.take(ci as int).contains(class@) {
                    let k = choose|k: int| 0 <= k < ci && #[trigger] cv.take(ci as int)[k] == class@;
                    assert(cv[k] == cv[ci as int]);
                }
            }
        }
        match followed {
            Some(followers) => {
                if provider.is_in_unrelated_relation(class.as_str(), class.as_str()) {
                    proof {
                        crate::class_set::lemma_sorted_no_duplicates(followers@);
                    }
                    let mut fi: usize = 0;
                    while fi < followers.len()
                        invariant
                            followers@.no_duplicates(),
                            !cv.take(ci as int).contains(class@),
                            keys.len() == r@.len(),
                            forall|i: int| 0 <= i < r@.len() ==> #[trigger] is_pair_set(r@[i]@, keys[i].0, keys[i].1),
                            forall|i: int| 0 <= i < keys.len() ==> cv.take(ci as int).contains(#[trigger] keys[i].0)
                                || (keys[i].0 == class@ && followers@.take(fi as int).contains(keys[i].1)),
                            forall|i: int, j: int| 0 <= i < j < keys.len() ==> #[trigger] keys[i] != #[trigger] keys[j],
                            provider.wf(),
                            followers.wf(),
                            forall|c: Seq<char>| followers@.contains(c) <==> directly_follows(log, class@, c),
                            forall|c: Seq<char>| #[trigger] cv.contains(c) <==> is_class(log, c),
                            provider.unrelated(class@, class@),
                            ci < cv.len(),
                            class@ == cv[ci as int],
                            fi <= followers@.len(),
                            all_valid(provider, cv, r@),
                            r_before.len() <= r@.len(),
                            forall|i: int| 0 <= i < r_before.len() ==> #[trigger] r@[i] == r_before[i],
                            forall|i: int| 0 <= i < r@.len() ==> #[trigger] is_initial_set(provider, log, r@[i]@),
                            forall|b: Seq<char>| #[trigger] initial_pair(provider, log, class@, b) && followers@.take(fi as int).contains(b)
                                ==> has_pair_set(r@, class@, b),
                        decreases followers@.len() - fi,
                    {
                        let follower = followers.get(fi);
                        let ghost r_mid = r@;
                        let ghost keys_mid = keys;
                        proof {
                            assert(!followers@.take(fi as int).contains(follower@)) by {
                                if followers@.take(fi as int).contains(follower@) {
                                    let k = choose|k: int| 0 <= k < fi && #[trigger] followers@.take(fi as int)[k] == follower@;
                                    assert(followers@[k] == followers@[fi as int]);
                                }
                            }
                        }
                        if provider.is_in_causal_relation(class.as_str(), follower.as_str())
                            && provider.is_in_unrelated_relation(follower.as_str(), follower.as_str()) {
                            let mut right: Vec<String> = Vec::new();
                            right.push(follower.clone());
                            let set = AlphaSet::new(class.clone(), right);
                            proof {
                                assert(followers@.contains(follower@));
                                lemma_follows_classes(log, class@, follower@);
                                assert(cv.contains(class@));
                                assert(cv.contains(follower@));
                                assert forall|y: Seq<char>| set@.1.contains(y) <==> y == follower@ by {
                                    assert(set.right().contains(y) <==> crate::text::strings_view(right@).contains(y));
                                    if y == follower@ {
                                        assert(crate::text::strings_view(right@)[0] == y);
                                    }
                                }
                                assert(is_pair_set(set@, class@, follower@));
                                assert(initial_pair(provider, log, class@, follower@));
                                assert forall|x: Seq<char>, y: Seq<char>| set.left().contains(x) && set.right().contains(y)
                                    implies #[trigger] crate::alpha::alpha_set::related(provider, x, y, true) by {
                                    assert(set.left()[0] == class@);
                                }
                                assert forall|x: Seq<char>, y: Seq<char>| set.left().contains(x) && set.left().contains(y)
                                    implies #[trigger] crate::alpha::alpha_set::related(provider, x, y, false) by {
                                    assert(set.left()[0] == class@);
                                }
                                assert forall|x: Seq<char>, y: Seq<char>| set.right().contains(x) && set.right().contains(y)
                                    implies #[trigger] crate::alpha::alpha_set::related(provider, x, y, false) by {
                                }
                                assert forall|x: Seq<char>| set@.0.contains(x) implies cv.contains(x) by {
                                    assert(set.left()[0] == class@);
                                }
                            }
                            r.push(set);
                            proof {
                                keys = keys.push((class@, follower@));
                                assert forall|i: int| 0 <= i < r@.len() implies #[trigger] is_pair_set(r@[i]@, keys[i].0, keys[i].1) by {
                                    if i < r_mid.len() {
                                        assert(r@[i] == r_mid[i]);
                                        assert(keys[i] == keys_mid[i]);
                                    }
                                }
                                assert forall|i: int, j: int| 0 <= i < j < keys.len() implies #[trigger] keys[i] != #[trigger] keys[j] by {
                                    if j == keys.len() - 1 {
                                        assert(keys[i] == keys_mid[i]);
                                        if cv.take(ci as int).contains(keys_mid[i].0) {
                                        } else {
                                            assert(followers@.take(fi as int).contains(keys_mid[i].1));
                                        }
                                    } else {
                                        assert(keys[i] == keys_mid[i] && keys[j] == keys_mid[j]);
                                    }
                                }
                                lemma_all_valid_grow(provider, cv, r_mid, r@, set);
                                assert(r@[r_mid.len() as int] == set);
                                assert forall|i: int| 0 <= i < r@.len() implies #[trigger] is_initial_set(provider, log, r@[i]@) by {
                                    if i < r_mid.len() {
                                        assert(r@[i] == r_mid[i]);
                                    } else {
                                        assert(is_pair_set(r@[i]@, class@, follower@));
                                    }
                                }
                                assert(is_pair_set(r@[r_mid.len() as int]@, class@, follower@));
                                assert(has_pair_set(r@, class@, follower@));
                            }
                        }
                        proof {
                            assert forall|i: int| 0 <= i < keys.len() implies cv.take(ci as int).contains(#[trigger] keys[i].0)
                                || (keys[i].0 == class@ && followers@.take(fi + 1).contains(keys[i].1)) by {
                                lemma_take_step(followers@, fi as int, keys[i].1);
                                if i < keys_mid.len() {
                                    assert(keys[i] == keys_mid[i]);
                                }
                            }
                            assert forall|b: Seq<char>| #[trigger] initial_pair(provider, log, class@, b) && followers@.take(fi + 1).contains(b)
                                implies has_pair_set(r@, class@, b) by {
                                if b != follower@ {
                                    let k = choose|k: int| 0 <= k < fi + 1 && #[trigger] followers@.take(fi + 1)[k] == b;
                                    assert(followers@.take(fi as int)[k] == b);
                                    lemma_has_pair_set_grow(r_mid, r@, class@, b);
                                }
                            }
                        }
                        fi = fi + 1;
                    }
                    proof {
                        assert(followers@.take(followers@.len() as int) =~= followers@);
                    }
                }
            },
            None => {},
        }
        proof {
            assert forall|i: int| 0 <= i < keys.len() implies cv.take(ci + 1).contains(#[trigger] keys[i].0) by {
                lemma_take_step(cv, ci as int, keys[i].0);
            }
            assert forall|a: Seq<char>, b: Seq<char>| #[trigger] initial_pair(provider, log, a, b) && cv.take(ci + 1).contains(a)
                implies has_pair_set(r@, a, b) by {
                if a == class@ {
                    assert(directly_follows(log, a, b));
                } else {
                    let k = choose|k: int| 0 <= k < ci + 1 && #[trigger] cv.take(ci + 1)[k] == a;
                    assert(cv.take(ci as int)[k] == a);
                    lemma_has_pair_set_grow(r_before, r@, a, b);
                }
            }
        }
        ci = ci + 1;
    }
    proof {
        assert forall|a: Seq<char>, b: Seq<char>| #[trigger] initial_pair(provider, log, a, b) implies has_pair_set(r@, a, b) by {
            lemma_follows_classes(log, a, b);
            assert(cv.take(cv.len() as int) =~= cv);
        }
        assert forall|i: int, j: int| 0 <= i < j < r@.len() implies class_pair(#[trigger] r@[i]@) != class_pair(#[trigger] r@[j]@) by {
            lemma_pair_set_classes(r@[i]@, keys[i].0, keys[i].1);
            lemma_pair_set_classes(r@[j]@, keys[j].0, keys[j].1);
            if class_pair(r@[i]@) == class_pair(r@[j]@) {
                assert(set![keys[i].0].contains(keys[i].0));
                assert(set![keys[j].0].contains(keys[i].0));
                assert(set![keys[i].1].contains(keys[i].1));
                assert(set![keys[j].1].contains(keys[i].1));
                assert(keys[i] == keys[j]);
            }
        }
    }
    r
}

/// The name of the place of an alpha set: `[{a,b} {c}]`.
pub open spec fn place_name(x: (Seq<Seq<char>>, Seq<Seq<char>>)) -> Seq<char> {
    "[{"@ + joined(x.0) + "} {"@ + joined(x.1) + "}]"@
}

/// How many identifiers the place of `x` and its arcs take.
pub open spec fn set_cost(x: (Seq<Seq<char>>, Seq<Seq<char>>)) -> nat {
    1 + x.0.len() + x.1.len()
}

pub open spec fn sets_cost(v: Seq<(Seq<Seq<char>>, Seq<Seq<char>>)>) -> nat
    decreases v.len(),
{
    if v.len() == 0 {
        0
    } else {
        sets_cost(v.drop_last()) + set_cost(v.last())
    }
}

/// The identifiers a net for `classes`, `sets`, `starts` and `ends` takes.
pub open spec fn ids_needed(
    classes: Seq<Seq<char>>,
    sets: Seq<(Seq<Seq<char>>, Seq<Seq<char>>)>,
    starts: Seq<Seq<char>>,
    ends: Seq<Seq<char>>,
) -> nat {
    classes.len() + sets_cost(sets) + 2 + starts.len() + ends.len()
}

/// Some set `j` with place `pids[j] == p` holds `c` on its left side.
pub open spec fn left_place(sets: Seq<(Seq<Seq<char>>, Seq<Seq<char>>)>, pids: Seq<u64>, c: Seq<char>, p: u64) -> bool {
    exists|j: int| 0 <= j < sets.len() && #[trigger] pids[j] == p && sets[j].0.contains(c)
}

/// Some set `j` with place `pids[j] == p` holds `c` on its right side.
pub open spec fn right_place(sets: Seq<(Seq<Seq<char>>, Seq<Seq<char>>)>, pids: Seq<u64>, c: Seq<char>, p: u64) -> bool {
    exists|j: int| 0 <= j < sets.len() && #[trigger] pids[j] == p && sets[j].1.contains(c)
}

/// The net built by the alpha algorithm from `sets`: one transition per
/// class (`tids`), one place per set (`pids`) named after it, a start place
/// `s` and an end place `e`; the transition of `c` feeds exactly the places
/// of the sets with `c` on the left (and `e` when `c` ends a trace) and is fed
/// by exactly those with `c` on the right (and `s` when `c` starts a trace).
pub open spec fn net_shape(
    net: PetriNet,
    log: Seq<Seq<Seq<char>>>,
    classes: Seq<Seq<char>>,
    sets: Seq<(Seq<Seq<char>>, Seq<Seq<char>>)>,
    tids: Seq<u64>,
    pids: Seq<u64>,
    s: u64,
    e: u64,
) -> bool {
    &&& tids.len() == classes.len()
    &&& pids.len() == sets.len()
    &&& tids.no_duplicates()
    &&& pids.no_duplicates()
    &&& !pids.contains(s)
    &&& !pids.contains(e)
    &&& s != e
    &&& forall|id: u64| #[trigger] net.transitions_map().dom().contains(id) <==> tids.contains(id)
    &&& forall|k: int| 0 <= k < classes.len() ==> {
        let t = #[trigger] net.transitions_map()[tids[k]];
        &&& t.id == tids[k]
        &&& t.name == classes[k]
        &&& t.data == Some(classes[k])
        &&& forall|p: u64| #[trigger] touches(t.outgoing, p) <==> (left_place(sets, pids, classes[k], p)
            || (p == e && is_end_class(log, classes[k])))
        &&& forall|p: u64| #[trigger] touches(t.incoming, p) <==> (right_place(sets, pids, classes[k], p)
            || (p == s && is_start_class(log, classes[k])))
    }
    &&& forall|id: u64| #[trigger] net.places_map().dom().contains(id) <==> (pids.contains(id) || id == s || id == e)
    &&& forall|j: int| 0 <= j < sets.len() ==> #[trigger] net.places_map()[pids[j]] == place_name(sets[j])
    &&& net.places_map()[s] == EMPTY_PLACE_NAME@
    &&& net.places_map()[e] == EMPTY_PLACE_NAME@
    &&& net.initial() == Some(seq![(s, 1usize)])
    &&& net.final_() == Some(seq![(e, 1usize)])
}

proof fn lemma_sets_cost_take(v: Seq<(Seq<Seq<char>>, Seq<Seq<char>>)>, j: int)
    requires
        0 <= j < v.len(),
    ensures
        sets_cost(v.take(j + 1)) == sets_cost(v.take(j)) + set_cost(v[j]),
{
    assert(v.take(j + 1).drop_last() =~= v.take(j));
}

proof fn lemma_sets_cost_prefix(v: Seq<(Seq<Seq<char>>, Seq<Seq<char>>)>, j: int)
    requires
        0 <= j <= v.len(),
    ensures
        sets_cost(v.take(j)) <= sets_cost(v),
    decreases v.len() - j,
{
    if j < v.len() {
        lemma_sets_cost_take(v, j);
        lemma_sets_cost_prefix(v, j + 1);
    } else {
        assert(v.take(j) =~= v);
    }
}

proof fn lemma_touches_push(arcs: Seq<(u64, u64)>, a: (u64, u64), p: u64)
    ensures
        touches(arcs.push(a), p) <==> (touches(arcs, p) || a.1 == p),
{
    if touches(arcs, p) {
        let k = choose|k: int| 0 <= k < arcs.len() && #[trigger] arcs[k].1 == p;
        assert(arcs.push(a)[k].1 == p);
    }
    if touches(arcs.push(a), p) {
        let k = choose|k: int| 0 <= k < arcs.push(a).len() && #[trigger] arcs.push(a)[k].1 == p;
        if k < arcs.len() {
            assert(arcs[k].1 == p);
        }
    }
    if a.1 == p {
        assert(arcs.push(a)[arcs.len() as int].1 == p);
    }
}

/// The position of `name` among the ascending `classes`.
fn class_index(classes: &ClassSet, name: &str) -> (k: usize)
    requires
        classes@.contains(name@),
    ensures
        k < classes@.len(),
        classes@[k as int] == name@,
{
    let mut k: usize = 0;
    while k < classes.len()
        invariant
            classes@.contains(name@),
            k <= classes@.len(),
            forall|q: int| 0 <= q < k ==> classes@[q] != name@,
        decreases classes@.len() - k,
    {
        if crate::text::str_eq(classes.get(k).as_str(), name) {
            return k;
        }
        k = k + 1;
    }
    proof {
        let q = choose|q: int| 0 <= q < classes@.len() && classes@[q] == name@;
    }
    0
}

/// The transitions of `tids` carry the classes, each its own name as data.
spec fn transitions_core(net: PetriNet, classes: Seq<Seq<char>>, tids: Seq<u64>) -> bool {
    &&& tids.len() == classes.len()
    &&& tids.no_duplicates()
    &&& forall|id: u64| #[trigger] net.transitions_map().dom().contains(id) <==> tids.contains(id)
    &&& forall|k: int| 0 <= k < tids.len() ==> {
        let t = #[trigger] net.transitions_map()[tids[k]];
        t.id == tids[k] && t.name == classes[k] && t.data == Some(classes[k])
    }
}

/// The arcs out of the transition of class `k` reach exactly the places `p`
/// with `out(k, p)`.
spec fn outs_are(net: PetriNet, tids: Seq<u64>, out: spec_fn(int, u64) -> bool) -> bool {
    forall|k: int, p: u64| 0 <= k < tids.len() ==> (#[trigger] touches(net.transitions_map()[tids[k]].outgoing, p) <==> out(k, p))
}

/// The arcs into the transition of class `k` come from exactly the places `p`
/// with `inn(k, p)`.
spec fn ins_are(net: PetriNet, tids: Seq<u64>, inn: spec_fn(int, u64) -> bool) -> bool {
    forall|k: int, p: u64| 0 <= k < tids.len() ==> (#[trigger] touches(net.transitions_map()[tids[k]].incoming, p) <==> inn(k, p))
}

/// Connecting one transition keeps the others, and the core.
proof fn lemma_connect(
    before: PetriNet,
    after: PetriNet,
    classes: Seq<Seq<char>>,
    tids: Seq<u64>,
    k0: int,
    arc: (u64, u64),
    outgoing: bool,
    out: spec_fn(int, u64) -> bool,
    inn: spec_fn(int, u64) -> bool,
)
    requires
        transitions_core(before, classes, tids),
        0 <= k0 < tids.len(),
        outs_are(before, tids, out),
        ins_are(before, tids, inn),
        after.transitions_map() == before.transitions_map().insert(
            tids[k0],
            if outgoing {
                crate::petri_net::TransitionView {
                    outgoing: before.transitions_map()[tids[k0]].outgoing.push(arc),
                    ..before.transitions_map()[tids[k0]]
                }
            } else {
                crate::petri_net::TransitionView {
                    incoming: before.transitions_map()[tids[k0]].incoming.push(arc),
                    ..before.transitions_map()[tids[k0]]
                }
            },
        ),
    ensures
        transitions_core(after, classes, tids),
        outgoing ==> outs_are(after, tids, |k: int, p: u64| out(k, p) || (k == k0 && p == arc.1)),
        outgoing ==> ins_are(after, tids, inn),
        !outgoing ==> outs_are(after, tids, out),
        !outgoing ==> ins_are(after, tids, |k: int, p: u64| inn(k, p) || (k == k0 && p == arc.1)),
{
    assert(tids.contains(tids[k0]));
    assert forall|id: u64| #[trigger] after.transitions_map().dom().contains(id) <==> tids.contains(id) by {}
    assert forall|k: int| 0 <= k < tids.len() implies {
        let t = #[trigger] after.transitions_map()[tids[k]];
        t.id == tids[k] && t.name == classes[k] && t.data == Some(classes[k])
    } by {
        let t0 = before.transitions_map()[tids[k]];
        assert(t0.id == tids[k] && t0.name == classes[k] && t0.data == Some(classes[k]));
    }
    if outgoing {
        assert forall|k: int, p: u64| 0 <= k < tids.len() implies (#[trigger] touches(after.transitions_map()[tids[k]].outgoing, p)
            <==> (out(k, p) || (k == k0 && p == arc.1))) by {
            assert(touches(before.transitions_map()[tids[k]].outgoing, p) <==> out(k, p));
            if k == k0 {
                lemma_touches_push(before.transitions_map()[tids[k0]].outgoing, arc, p);
            } else {
                assert(tids[k] != tids[k0]);
            }
        }
        assert forall|k: int, p: u64| 0 <= k < tids.len() implies (#[trigger] touches(after.transitions_map()[tids[k]].incoming, p)
            <==> inn(k, p)) by {
            assert(touches(before.transitions_map()[tids[k]].incoming, p) <==> inn(k, p));
            if k != k0 {
                assert(tids[k] != tids[k0]);
            }
        }
    } else {
        assert forall|k: int, p: u64| 0 <= k < tids.len() implies (#[trigger] touches(after.transitions_map()[tids[k]].incoming, p)
            <==> (inn(k, p) || (k == k0 && p == arc.1))) by {
            assert(touches(before.transitions_map()[tids[k]].incoming, p) <==> inn(k, p));
            if k == k0 {
                lemma_touches_push(before.transitions_map()[tids[k0]].incoming, arc, p);
            } else {
                assert(tids[k] != tids[k0]);
            }
        }
        assert forall|k: int, p: u64| 0 <= k < tids.len() implies (#[trigger] touches(after.transitions_map()[tids[k]].outgoing, p)
            <==> out(k, p)) by {
            assert(touches(before.transitions_map()[tids[k]].outgoing, p) <==> out(k, p));
            if k != k0 {
                assert(tids[k] != tids[k0]);
            }
        }
    }
}

proof fn lemma_outs_equiv(net: PetriNet, tids: Seq<u64>, f: spec_fn(int, u64) -> bool, g: spec_fn(int, u64) -> bool)
    requires
        outs_are(net, tids, f),
        forall|k: int, p: u64| 0 <= k < tids.len() ==> (#[trigger] f(k, p) <==> g(k, p)),
    ensures
        outs_are(net, tids, g),
{
    assert forall|k: int, p: u64| 0 <= k < tids.len() implies (#[trigger] touches(net.transitions_map()[tids[k]].outgoing, p) <==> g(k, p)) by {
        assert(touches(net.transitions_map()[tids[k]].outgoing, p) <==> f(k, p));
        assert(f(k, p) <==> g(k, p));
    }
}

proof fn lemma_ins_equiv(net: PetriNet, tids: Seq<u64>, f: spec_fn(int, u64) -> bool, g: spec_fn(int, u64) -> bool)
    requires
        ins_are(net, tids, f),
        forall|k: int, p: u64| 0 <= k < tids.len() ==> (#[trigger] f(k, p) <==> g(k, p)),
    ensures
        ins_are(net, tids, g),
{
    assert forall|k: int, p: u64| 0 <= k < tids.len() implies (#[trigger] touches(net.transitions_map()[tids[k]].incoming, p) <==> g(k, p)) by {
        assert(touches(net.transitions_map()[tids[k]].incoming, p) <==> f(k, p));
        assert(f(k, p) <==> g(k, p));
    }
}

/// Adds one transition per class, named after it and carrying its name as data.
fn add_class_transitions(net: &mut PetriNet, classes: &ClassSet, ids: &mut IdGenerator, Ghost(fits): Ghost<bool>) -> (tids: Vec<u64>)
    requires
        old(net).wf(),
        old(net).transitions_map() == Map::<u64, crate::petri_net::TransitionView>::empty(),
        classes.wf(),
        fits ==> old(ids)@ + classes@.len() <= u64::MAX,
    ensures
        final(net).wf(),
        final(net).places_map() == old(net).places_map(),
        tids@.len() == classes@.len(),
        forall|k: int| 0 <= k < tids@.len() ==> final(net).transitions_map().dom().contains(#[trigger] tids@[k]),
        fits ==> transitions_core(*final(net), classes@, tids@),
        fits ==> outs_are(*final(net), tids@, |k: int, p: u64| false),
        fits ==> ins_are(*final(net), tids@, |k: int, p: u64| false),
        fits ==> final(ids)@ == old(ids)@ + classes@.len(),
        fits ==> forall|k: int| 0 <= k < tids@.len() ==> #[trigger] tids@[k] < final(ids)@,
{
    let ghost start = ids@;
    let mut tids: Vec<u64> = Vec::new();
    let mut i: usize = 0;
    while i < classes.len()
        invariant
            net.wf(),
            net.places_map() == old(net).places_map(),
            classes.wf(),
            fits ==> start + classes@.len() <= u64::MAX,
            i <= classes@.len(),
            tids@.len() == i,
            forall|k: int| 0 <= k < tids@.len() ==> net.transitions_map().dom().contains(#[trigger] tids@[k]),
            fits ==> ids@ == start + i,
            fits ==> forall|k: int| 0 <= k < i ==> #[trigger] tids@[k] == start + k,
            fits ==> transitions_core(*net, classes@.take(i as int), tids@),
            fits ==> forall|k: int, p: u64| 0 <= k < tids@.len() ==> !(#[trigger] touches(net.transitions_map()[tids@[k]].outgoing, p)),
            fits ==> forall|k: int, p: u64| 0 <= k < tids@.len() ==> !(#[trigger] touches(net.transitions_map()[tids@[k]].incoming, p)),
        decreases classes@.len() - i,
    {
        let name = classes.get(i);
        let ghost before = *net;
        let ghost old_tids = tids@;
        let t = Transition::empty(name.clone(), Some(name.clone()), ids);
        let id = net.add_transition(t);
        tids.push(id);
        proof {
            assert forall|k: int| 0 <= k < tids@.len() implies net.transitions_map().dom().contains(#[trigger] tids@[k]) by {
                if k < old_tids.len() {
                    assert(tids@[k] == old_tids[k]);
                }
            }
            if fits {
                let cl = classes@.take(i + 1);
                assert(classes@.take(i as int) =~= cl.take(i as int));
                assert forall|k: int| 0 <= k < i + 1 implies #[trigger] tids@[k] == start + k by {
                    if k < i {
                        assert(tids@[k] == old_tids[k]);
                    }
                }
                assert(tids@.no_duplicates()) by {
                    assert forall|a: int, b: int| 0 <= a < tids@.len() && 0 <= b < tids@.len() && a != b implies tids@[a] != tids@[b] by {
                        assert(tids@[a] == start + a);
                        assert(tids@[b] == start + b);
                    }
                }
                assert forall|x: u64| #[trigger] net.transitions_map().dom().contains(x) <==> tids@.contains(x) by {
                    if x == id {
                        assert(tids@[i as int] == x);
                    }
                    if before.transitions_map().dom().contains(x) {
                        let k = choose|k: int| 0 <= k < old_tids.len() && old_tids[k] == x;
                        assert(tids@[k] == x);
                    }
                    if tids@.contains(x) && x != id {
                        let k = choose|k: int| 0 <= k < tids@.len() && tids@[k] == x;
                        assert(old_tids[k] == x);
                        assert(old_tids.contains(x));
                    }
                }
                assert forall|k: int| 0 <= k < tids@.len() implies {
                    let tv = #[trigger] net.transitions_map()[tids@[k]];
                    tv.id == tids@[k] && tv.name == cl[k] && tv.data == Some(cl[k])
                } by {
                    if k < i {
                        assert(tids@[k] == old_tids[k]);
                        assert(old_tids[k] != id);
                    }
                }
                assert forall|k: int, p: u64| 0 <= k < tids@.len() implies !(#[trigger] touches(net.transitions_map()[tids@[k]].outgoing, p)) by {
                    if k < i {
                        assert(tids@[k] == old_tids[k]);
                        assert(old_tids[k] != id);
                        assert(!touches(before.transitions_map()[old_tids[k]].outgoing, p));
                    }
                }
                assert forall|k: int, p: u64| 0 <= k < tids@.len() implies !(#[trigger] touches(net.transitions_map()[tids@[k]].incoming, p)) by {
                    if k < i {
                        assert(tids@[k] == old_tids[k]);
                        assert(old_tids[k] != id);
                        assert(!touches(before.transitions_map()[old_tids[k]].incoming, p));
                    }
                }
                assert(transitions_core(*net, cl, tids@));
            }
        }
        i = i + 1;
    }
    proof {
        assert(classes@.take(classes@.len() as int) =~= classes@);
        if fits {
            assert forall|k: int, p: u64| 0 <= k < tids@.len() implies (#[trigger] touches(net.transitions_map()[tids@[k]].outgoing, p) <==> false) by {}
            assert forall|k: int, p: u64| 0 <= k < tids@.len() implies (#[trigger] touches(net.transitions_map()[tids@[k]].incoming, p) <==> false) by {}
            assert forall|k: int| 0 <= k < tids@.len() implies #[trigger] tids@[k] < ids@ by {
                assert(tids@[k] == start + k);
            }
        }
    }
    tids
}

proof fn lemma_take_step(s: Seq<Seq<char>>, m: int, c: Seq<char>)
    requires
        0 <= m < s.len(),
    ensures
        s.take(m + 1).contains(c) <==> (s.take(m).contains(c) || c == s[m]),
{
    if s.take(m + 1).contains(c) {
        let q = choose|q: int| 0 <= q < m + 1 && #[trigger] s.take(m + 1)[q] == c;
        if q < m {
            assert(s.take(m)[q] == c);
        }
    }
    if s.take(m).contains(c) {
        let q = choose|q: int| 0 <= q < m && #[trigger] s.take(m)[q] == c;
        assert(s.take(m + 1)[q] == c);
    }
    if c == s[m] {
        assert(s.take(m + 1)[m] == c);
    }
}

/// Connects the transitions of the classes in `members` to (`outgoing`) or
/// from the place `pid`.
fn connect_classes(
    net: &mut PetriNet,
    classes: &ClassSet,
    tids: &Vec<u64>,
    members: &Vec<String>,
    pid: u64,
    outgoing: bool,
    ids: &mut IdGenerator,
    Ghost(fits): Ghost<bool>,
    Ghost(out): Ghost<spec_fn(int, u64) -> bool>,
    Ghost(inn): Ghost<spec_fn(int, u64) -> bool>,
)
    requires
        old(net).wf(),
        classes.wf(),
        tids@.len() == classes@.len(),
        forall|k: int| 0 <= k < tids@.len() ==> old(net).transitions_map().dom().contains(#[trigger] tids@[k]),
        forall|x: Seq<char>| crate::text::strings_view(members@).contains(x) ==> classes@.contains(x),
        fits ==> transitions_core(*old(net), classes@, tids@),
        fits ==> outs_are(*old(net), tids@, out),
        fits ==> ins_are(*old(net), tids@, inn),
        fits ==> old(ids)@ + members@.len() <= u64::MAX,
    ensures
        final(net).wf(),
        final(net).places_map() == old(net).places_map(),
        final(net).initial() == old(net).initial(),
        final(net).final_() == old(net).final_(),
        forall|k: int| 0 <= k < tids@.len() ==> final(net).transitions_map().dom().contains(#[trigger] tids@[k]),
        fits ==> transitions_core(*final(net), classes@, tids@),
        fits && outgoing ==> outs_are(*final(net), tids@,
            |k: int, p: u64| out(k, p) || (p == pid && crate::text::strings_view(members@).contains(classes@[k]))),
        fits && outgoing ==> ins_are(*final(net), tids@, inn),
        fits && !outgoing ==> outs_are(*final(net), tids@, out),
        fits && !outgoing ==> ins_are(*final(net), tids@,
            |k: int, p: u64| inn(k, p) || (p == pid && crate::text::strings_view(members@).contains(classes@[k]))),
        fits ==> final(ids)@ == old(ids)@ + members@.len(),
{
    let ghost mv = crate::text::strings_view(members@);
    let ghost start = ids@;
    proof {
        crate::class_set::lemma_sorted_no_duplicates(classes@);
    }
    let mut m: usize = 0;
    while m < members.len()
        invariant
            net.wf(),
            classes.wf(),
            classes@.no_duplicates(),
            mv == crate::text::strings_view(members@),
            net.places_map() == old(net).places_map(),
            net.initial() == old(net).initial(),
            net.final_() == old(net).final_(),
            tids@.len() == classes@.len(),
            forall|k: int| 0 <= k < tids@.len() ==> net.transitions_map().dom().contains(#[trigger] tids@[k]),
            forall|x: Seq<char>| mv.contains(x) ==> classes@.contains(x),
            m <= members@.len(),
            fits ==> start + members@.len() <= u64::MAX,
            fits ==> ids@ == start + m,
            fits ==> transitions_core(*net, classes@, tids@),
            fits && outgoing ==> outs_are(*net, tids@, |k: int, p: u64| out(k, p) || (p == pid && mv.take(m as int).contains(classes@[k]))),
            fits && outgoing ==> ins_are(*net, tids@, inn),
            fits && !outgoing ==> outs_are(*net, tids@, out),
            fits && !outgoing ==> ins_are(*net, tids@, |k: int, p: u64| inn(k, p) || (p == pid && mv.take(m as int).contains(classes@[k]))),
        decreases members@.len() - m,
    {
        let name = &members[m];
        assert(mv[m as int] == name@);
        assert(mv.contains(name@));
        let k0 = class_index(classes, name.as_str());
        let ghost before = *net;
        let ghost arc_id = ids@;
        let ghost out_m = |k: int, p: u64| out(k, p) || (p == pid && mv.take(m as int).contains(classes@[k]));
        let ghost in_m = |k: int, p: u64| inn(k, p) || (p == pid && mv.take(m as int).contains(classes@[k]));
        if outgoing {
            net.connect_transition_to_place(tids[k0], pid, ids);
        } else {
            net.connect_place_to_transition(pid, tids[k0], ids);
        }
        proof {
            assert forall|k: int| 0 <= k < tids@.len() implies net.transitions_map().dom().contains(#[trigger] tids@[k]) by {
                assert(before.transitions_map().dom().contains(tids@[k]));
            }
            if fits {
                assert forall|k: int| 0 <= k < tids@.len() implies
                    (mv.take(m + 1).contains(#[trigger] classes@[k]) <==> (mv.take(m as int).contains(classes@[k]) || k == k0)) by {
                    lemma_take_step(mv, m as int, classes@[k]);
                    if classes@[k] == mv[m as int] && k != k0 {
                        assert(classes@[k] == classes@[k0 as int]);
                    }
                }
                if outgoing {
                    lemma_connect(before, *net, classes@, tids@, k0 as int, (arc_id, pid), true, out_m, inn);
                    lemma_outs_equiv(*net, tids@, |k: int, p: u64| out_m(k, p) || (k == k0 && p == pid),
                        |k: int, p: u64| out(k, p) || (p == pid && mv.take(m + 1).contains(classes@[k])));
                } else {
                    lemma_connect(before, *net, classes@, tids@, k0 as int, (arc_id, pid), false, out, in_m);
                    lemma_ins_equiv(*net, tids@, |k: int, p: u64| in_m(k, p) || (k == k0 && p == pid),
                        |k: int, p: u64| inn(k, p) || (p == pid && mv.take(m + 1).contains(classes@[k])));
                }
            }
        }
        m = m + 1;
    }
    proof {
        assert(mv.take(members@.len() as int) =~= mv);
    }
}

proof fn lemma_place_step(
    sets: Seq<(Seq<Seq<char>>, Seq<Seq<char>>)>,
    pids: Seq<u64>,
    pid: u64,
    j: int,
    c: Seq<char>,
    p: u64,
)
    requires
        0 <= j < sets.len(),
        pids.len() == j,
    ensures
        left_place(sets.take(j + 1), pids.push(pid), c, p) <==> (left_place(sets.take(j), pids, c, p)
            || (p == pid && sets[j].0.contains(c))),
        right_place(sets.take(j + 1), pids.push(pid), c, p) <==> (right_place(sets.take(j), pids, c, p)
            || (p == pid && sets[j].1.contains(c))),
{
    let s1 = sets.take(j + 1);
    let s0 = sets.take(j);
    let q1 = pids.push(pid);
    if left_place(s1, q1, c, p) {
        let q = choose|q: int| 0 <= q < s1.len() && #[trigger] q1[q] == p && s1[q].0.contains(c);
        if q < j {
            assert(pids[q] == p && s0[q].0.contains(c));
        }
    }
    if left_place(s0, pids, c, p) {
        let q = choose|q: int| 0 <= q < s0.len() && #[trigger] pids[q] == p && s0[q].0.contains(c);
        assert(q1[q] == p && s1[q].0.contains(c));
    }
    if p == pid && sets[j].0.contains(c) {
        assert(q1[j] == p && s1[j].0.contains(c));
    }
    if right_place(s1, q1, c, p) {
        let q = choose|q: int| 0 <= q < s1.len() && #[trigger] q1[q] == p && s1[q].1.contains(c);
        if q < j {
            assert(pids[q] == p && s0[q].1.contains(c));
        }
    }
    if right_place(s0, pids, c, p) {
        let q = choose|q: int| 0 <= q < s0.len() && #[trigger] pids[q] == p && s0[q].1.contains(c);
        assert(q1[q] == p && s1[q].1.contains(c));
    }
    if p == pid && sets[j].1.contains(c) {
        assert(q1[j] == p && s1[j].1.contains(c));
    }
}

proof fn lemma_start_end_classes(log: Seq<Seq<Seq<char>>>, c: Seq<char>)
    ensures
        is_start_class(log, c) ==> is_class(log, c),
        is_end_class(log, c) ==> is_class(log, c),
{
    if is_start_class(log, c) {
        let t = choose|t: int| 0 <= t < log.len() && log[t].len() > 0 && #[trigger] log[t][0] == c;
        assert(log[t][0] == c);
    }
    if is_end_class(log, c) {
        let t = choose|t: int| 0 <= t < log.len() && log[t].len() > 0 && #[trigger] log[t][log[t].len() - 1] == c;
        assert(log[t][log[t].len() - 1] == c);
    }
}

/// Every transition and place of `net` has an identifier below `bound`.
pub open spec fn ids_below(net: PetriNet, bound: u64) -> bool {
    &&& forall|id: u64| #[trigger] net.transitions_map().dom().contains(id) ==> id < bound
    &&& forall|id: u64| #[trigger] net.places_map().dom().contains(id) ==> id < bound
}

/// Builds the net of the alpha algorithm for the places `alpha_sets`.
fn create_petri_net(info: &EventLogInfo, alpha_sets: &Vec<AlphaSet>, ids: &mut IdGenerator) -> (r: PetriNet)
    requires
        info.wf(),
        old(ids)@ == 0,
        forall|i: int| 0 <= i < alpha_sets@.len() ==> (#[trigger] alpha_sets@[i]).wf()
            && within(info.all_event_classes_view(), alpha_sets@[i]@),
    ensures
        r.wf(),
        ids_needed(info.all_event_classes_view(), sets_view(alpha_sets@), info.start_event_classes_view(),
            info.end_event_classes_view()) <= u64::MAX ==> exists|tids: Seq<u64>, pids: Seq<u64>, s: u64, e: u64|
            net_shape(r, info.log(), info.all_event_classes_view(), sets_view(alpha_sets@), tids, pids, s, e),
        ids_needed(info.all_event_classes_view(), sets_view(alpha_sets@), info.start_event_classes_view(),
            info.end_event_classes_view()) <= u64::MAX ==> final(ids)@ == ids_needed(info.all_event_classes_view(),
            sets_view(alpha_sets@), info.start_event_classes_view(), info.end_event_classes_view()),
        ids_needed(info.all_event_classes_view(), sets_view(alpha_sets@), info.start_event_classes_view(),
            info.end_event_classes_view()) <= u64::MAX ==> ids_below(r, final(ids)@),
{
    let ghost cv = info.all_event_classes_view();
    let ghost sets = sets_view(alpha_sets@);
    let ghost log = info.log();
    let ghost fits = ids_needed(cv, sets, info.start_event_classes_view(), info.end_event_classes_view()) <= u64::MAX;
    let classes = info.all_event_classes();
    let mut net = PetriNet::empty();
    let tids = add_class_transitions(&mut net, classes, ids, Ghost(fits));
    let ghost tids_bound = ids@;
    let ghost n = cv.len();
    let mut pids: Vec<u64> = Vec::new();
    let mut j: usize = 0;
    proof {
        assert(sets.take(0) =~= Seq::<(Seq<Seq<char>>, Seq<Seq<char>>)>::empty());
        if fits {
            lemma_outs_equiv(net, tids@, |k: int, p: u64| false, |k: int, p: u64| left_place(sets.take(0), pids@, cv[k], p));
            lemma_ins_equiv(net, tids@, |k: int, p: u64| false, |k: int, p: u64| right_place(sets.take(0), pids@, cv[k], p));
            assert(net.places_map() =~= Map::<u64, Seq<char>>::empty());
        }
    }
    while j < alpha_sets.len()
        invariant
            info.wf(),
            cv == info.all_event_classes_view(),
            n == cv.len(),
            classes@ == cv,
            classes.wf(),
            sets == sets_view(alpha_sets@),
            log == info.log(),
            fits == (ids_needed(cv, sets, info.start_event_classes_view(), info.end_event_classes_view()) <= u64::MAX),
            forall|i: int| 0 <= i < alpha_sets@.len() ==> (#[trigger] alpha_sets@[i]).wf() && within(cv, alpha_sets@[i]@),
            net.wf(),
            j <= alpha_sets@.len(),
            pids@.len() == j,
            tids@.len() == cv.len(),
            forall|k: int| 0 <= k < tids@.len() ==> net.transitions_map().dom().contains(#[trigger] tids@[k]),
            fits ==> transitions_core(net, cv, tids@),
            fits ==> outs_are(net, tids@, |k: int, p: u64| left_place(sets.take(j as int), pids@, cv[k], p)),
            fits ==> ins_are(net, tids@, |k: int, p: u64| right_place(sets.take(j as int), pids@, cv[k], p)),
            fits ==> ids@ == n + sets_cost(sets.take(j as int)),
            fits ==> forall|k: int| 0 <= k < tids@.len() ==> #[trigger] tids@[k] < ids@,
            fits ==> pids@.no_duplicates(),
            fits ==> forall|q: int| 0 <= q < j ==> #[trigger] pids@[q] < ids@,
            fits ==> forall|id: u64| #[trigger] net.places_map().dom().contains(id) <==> pids@.contains(id),
            fits ==> forall|q: int| 0 <= q < j ==> #[trigger] net.places_map()[pids@[q]] == place_name(sets[q]),
        decreases alpha_sets@.len() - j,
    {
        let set = &alpha_sets[j];
        assert(sets[j as int] == set@);
        let ghost before_ids = ids@;
        let ghost old_pids = pids@;
        let ghost places_before = net.places_map();
        proof {
            if fits {
                lemma_sets_cost_take(sets, j as int);
                lemma_sets_cost_prefix(sets, j + 1);
            }
        }
        let place = Place::with_name(set.to_string(), ids);
        let pid = net.add_place(place);
        let left = set.left_classes();
        let right = set.right_classes();
        proof {
            assert(within(cv, set@));
            assert(crate::text::strings_view(left@).len() == left@.len());
            assert(crate::text::strings_view(right@).len() == right@.len());
            if fits {
                assert(ids@ == before_ids + 1);
                assert(ids@ + left@.len() + right@.len() <= u64::MAX);
            }
        }
        connect_classes(&mut net, classes, &tids, &left, pid, true, ids, Ghost(fits),
            Ghost(|k: int, p: u64| left_place(sets.take(j as int), old_pids, cv[k], p)),
            Ghost(|k: int, p: u64| right_place(sets.take(j as int), old_pids, cv[k], p)));
        connect_classes(&mut net, classes, &tids, &right, pid, false, ids, Ghost(fits),
            Ghost(|k: int, p: u64| left_place(sets.take(j as int), old_pids, cv[k], p)
                || (p == pid && crate::text::strings_view(left@).contains(cv[k]))),
            Ghost(|k: int, p: u64| right_place(sets.take(j as int), old_pids, cv[k], p)));
        pids.push(pid);
        proof {
            if fits {
                assert forall|k: int, p: u64| 0 <= k < tids@.len() implies
                    (#[trigger] left_place(sets.take(j + 1), pids@, cv[k], p) <==> (left_place(sets.take(j as int), old_pids, cv[k], p)
                        || (p == pid && crate::text::strings_view(left@).contains(cv[k])))) by {
                    lemma_place_step(sets, old_pids, pid, j as int, cv[k], p);
                }
                assert forall|k: int, p: u64| 0 <= k < tids@.len() implies
                    (#[trigger] right_place(sets.take(j + 1), pids@, cv[k], p) <==> (right_place(sets.take(j as int), old_pids, cv[k], p)
                        || (p == pid && crate::text::strings_view(right@).contains(cv[k])))) by {
                    lemma_place_step(sets, old_pids, pid, j as int, cv[k], p);
                }
                lemma_outs_equiv(net, tids@, |k: int, p: u64| left_place(sets.take(j as int), old_pids, cv[k], p)
                    || (p == pid && crate::text::strings_view(left@).contains(cv[k])),
                    |k: int, p: u64| left_place(sets.take(j + 1), pids@, cv[k], p));
                lemma_ins_equiv(net, tids@, |k: int, p: u64| right_place(sets.take(j as int), old_pids, cv[k], p)
                    || (p == pid && crate::text::strings_view(right@).contains(cv[k])),
                    |k: int, p: u64| right_place(sets.take(j + 1), pids@, cv[k], p));
                assert(pid == before_ids);
                assert(!old_pids.contains(pid));
                assert(pids@.no_duplicates()) by {
                    assert forall|a: int, b: int| 0 <= a < pids@.len() && 0 <= b < pids@.len() && a != b implies pids@[a] != pids@[b] by {
                        if a < j && b < j {
                            assert(pids@[a] == old_pids[a] && pids@[b] == old_pids[b]);
                        } else if a < j {
                            assert(pids@[a] == old_pids[a]);
                        } else if b < j {
                            assert(pids@[b] == old_pids[b]);
                        }
                    }
                }
                assert forall|q: int| 0 <= q < j + 1 implies #[trigger] pids@[q] < ids@ by {
                    if q < j {
                        assert(pids@[q] == old_pids[q]);
                    }
                }
                assert forall|id: u64| #[trigger] net.places_map().dom().contains(id) <==> pids@.contains(id) by {
                    if id == pid {
                        assert(pids@[j as int] == id);
                    }
                    if old_pids.contains(id) {
                        let q = choose|q: int| 0 <= q < old_pids.len() && old_pids[q] == id;
                        assert(pids@[q] == id);
                    }
                    if pids@.contains(id) && id != pid {
                        let q = choose|q: int| 0 <= q < pids@.len() && pids@[q] == id;
                        assert(old_pids[q] == id);
                        assert(old_pids.contains(id));
                    }
                }
                assert forall|q: int| 0 <= q < j + 1 implies #[trigger] net.places_map()[pids@[q]] == place_name(sets[q]) by {
                    if q < j {
                        assert(pids@[q] == old_pids[q]);
                        assert(old_pids[q] != pid);
                        assert(places_before[old_pids[q]] == place_name(sets[q]));
                    }
                }
            }
        }
        j = j + 1;
    }
    proof {
        assert(sets.take(sets.len() as int) =~= sets);
        if fits {
            lemma_sets_cost_prefix(sets, sets.len() as int);
        }
    }
    let ghost places_mid = net.places_map();
    let start_id = net.add_place(Place::empty(ids));
    let starts = info.start_event_classes().to_vec();
    proof {
        assert forall|x: Seq<char>| crate::text::strings_view(starts@).contains(x) implies cv.contains(x) by {
            lemma_start_end_classes(log, x);
        }
    }
    connect_classes(&mut net, classes, &tids, &starts, start_id, false, ids, Ghost(fits),
        Ghost(|k: int, p: u64| left_place(sets, pids@, cv[k], p)),
        Ghost(|k: int, p: u64| right_place(sets, pids@, cv[k], p)));
    let ghost places_mid2 = net.places_map();
    let end_id = net.add_place(Place::empty(ids));
    let ends = info.end_event_classes().to_vec();
    proof {
        assert forall|x: Seq<char>| crate::text::strings_view(ends@).contains(x) implies cv.contains(x) by {
            lemma_start_end_classes(log, x);
        }
    }
    connect_classes(&mut net, classes, &tids, &ends, end_id, true, ids, Ghost(fits),
        Ghost(|k: int, p: u64| left_place(sets, pids@, cv[k], p)),
        Ghost(|k: int, p: u64| right_place(sets, pids@, cv[k], p) || (p == start_id
            && crate::text::strings_view(starts@).contains(cv[k]))));
    let mut initial: Vec<SingleMarking> = Vec::new();
    initial.push(SingleMarking::new(start_id, 1));
    net.set_initial_marking(Marking::new(initial));
    let mut fin: Vec<SingleMarking> = Vec::new();
    fin.push(SingleMarking::new(end_id, 1));
    net.set_final_marking(Marking::new(fin));
    proof {
        if fits {
            assert(crate::petri_net::markings_view(initial@) =~= seq![(start_id, 1usize)]);
            assert(crate::petri_net::markings_view(fin@) =~= seq![(end_id, 1usize)]);
            assert(!pids@.contains(start_id));
            assert(!pids@.contains(end_id));
            assert forall|id: u64| #[trigger] net.places_map().dom().contains(id) <==> (pids@.contains(id) || id == start_id || id == end_id) by {
            }
            assert forall|q: int| 0 <= q < sets.len() implies #[trigger] net.places_map()[pids@[q]] == place_name(sets[q]) by {
                assert(places_mid[pids@[q]] == place_name(sets[q]));
            }
            assert forall|k: int| 0 <= k < cv.len() implies {
                let t = #[trigger] net.transitions_map()[tids@[k]];
                &&& t.id == tids@[k]
                &&& t.name == cv[k]
                &&& t.data == Some(cv[k])
                &&& forall|p: u64| #[trigger] touches(t.outgoing, p) <==> (left_place(sets, pids@, cv[k], p)
                    || (p == end_id && is_end_class(log, cv[k])))
                &&& forall|p: u64| #[trigger] touches(t.incoming, p) <==> (right_place(sets, pids@, cv[k], p)
                    || (p == start_id && is_start_class(log, cv[k])))
            } by {
                assert forall|p: u64| #[trigger] touches(net.transitions_map()[tids@[k]].outgoing, p) <==> (left_place(sets, pids@, cv[k], p)
                    || (p == end_id && is_end_class(log, cv[k]))) by {
                    assert(crate::text::strings_view(ends@).contains(cv[k]) <==> is_end_class(log, cv[k]));
                }
                assert forall|p: u64| #[trigger] touches(net.transitions_map()[tids@[k]].incoming, p) <==> (right_place(sets, pids@, cv[k], p)
                    || (p == start_id && is_start_class(log, cv[k]))) by {
                    assert(crate::text::strings_view(starts@).contains(cv[k]) <==> is_start_class(log, cv[k]));
                }
            }
            assert(net_shape(net, log, cv, sets, tids@, pids@, start_id, end_id));
            assert forall|id: u64| #[trigger] net.transitions_map().dom().contains(id) implies id < ids@ by {
                let k = choose|k: int| 0 <= k < tids@.len() && tids@[k] == id;
            }
            assert forall|id: u64| #[trigger] net.places_map().dom().contains(id) implies id < ids@ by {
                if pids@.contains(id) {
                    let q = choose|q: int| 0 <= q < pids@.len() && pids@[q] == id;
                }
            }
        }
    }
    net
}

proof fn lemma_pair_set_classes(x: (Seq<Seq<char>>, Seq<Seq<char>>), a: Seq<char>, b: Seq<char>)
    requires
        is_pair_set(x, a, b),
    ensures
        class_pair(x) == (set![a], set![b]),
{
    assert(x.0[0] == a);
    assert(class_pair(x).0 =~= set![a]) by {
        assert forall|c: Seq<char>| #[trigger] x.0.contains(c) implies c == a by {
            let k = choose|k: int| 0 <= k < x.0.len() && x.0[k] == c;
        }
    }
    assert(class_pair(x).1 =~= set![b]);
}

/// `x` is `({a}, {b})` for a starting pair `(a, b)`.
pub open spec fn is_starting_candidate<P: AlphaRelationsProvider>(provider: &P, log: Seq<Seq<Seq<char>>>, x: ClassPair) -> bool {
    exists|a: Seq<char>, b: Seq<char>| #[trigger] initial_pair(provider, log, a, b) && x == (set![a], set![b])
}

/// `init` lists the starting places `({a}, {b})`: each of its candidates is
/// one, each starting pair has one, and none occurs twice (in an order of
/// its own).
pub open spec fn starting_candidates<P: AlphaRelationsProvider>(provider: &P, log: Seq<Seq<Seq<char>>>, init: Seq<ClassPair>) -> bool {
    &&& forall|i: int| 0 <= i < init.len() ==> #[trigger] is_starting_candidate(provider, log, init[i])
    &&& forall|i: int, j: int| 0 <= i < j < init.len() ==> #[trigger] init[i] != #[trigger] init[j]
    &&& forall|a: Seq<char>, b: Seq<char>| #[trigger] initial_pair(provider, log, a, b) ==> exists|i: int|
        0 <= i < init.len() && #[trigger] init[i] == (set![a], set![b])
}

/// `x` is a candidate of `cur` that no other candidate strictly contains.
pub open spec fn is_maximal_member(cur: Seq<(Seq<Seq<char>>, Seq<Seq<char>>)>, x: (Seq<Seq<char>>, Seq<Seq<char>>)) -> bool {
    exists|k: int| 0 <= k < cur.len() && x == #[trigger] cur[k] && is_maximal(cur, cur[k])
}

/// The places `sets` are the maximal candidates, in order, of `cur`, the
/// candidates left when merging the starting candidates `init` settles;
/// each maximal candidate gives one place, and no two places hold the same
/// classes.
#[verifier::opaque]
pub open spec fn settled_places<P: AlphaRelationsProvider>(
    provider: &P,
    log: Seq<Seq<Seq<char>>>,
    init: Seq<ClassPair>,
    cur: Seq<(Seq<Seq<char>>, Seq<Seq<char>>)>,
    sets: Seq<(Seq<Seq<char>>, Seq<Seq<char>>)>,
) -> bool {
    &&& starting_candidates(provider, log, init)
    &&& cur.map_values(|x: (Seq<Seq<char>>, Seq<Seq<char>>)| class_pair(x)) == settle(provider, init, u64::MAX as nat)
    &&& forall|j: int| 0 <= j < sets.len() ==> #[trigger] is_maximal_member(cur, sets[j])
    &&& forall|k: int| 0 <= k < cur.len() && is_maximal(cur, #[trigger] cur[k]) ==> exists|j: int| 0 <= j < sets.len()
        && #[trigger] same_alpha_set(sets[j], cur[k])
    &&& forall|i: int, j: int| 0 <= i < j < sets.len() ==> !same_alpha_set(#[trigger] sets[i], #[trigger] sets[j])
}

/// What the alpha algorithm's places satisfy: they are the maximal
/// candidates left when the starting places are merged round by round (see
/// `settle`); each is an alpha set over the classes, every starting pair
/// `({a}, {b})` lies within one of them, no place lies within another, and
/// no two places hold the same classes.
pub open spec fn alpha_places<P: AlphaRelationsProvider>(
    provider: &P,
    log: Seq<Seq<Seq<char>>>,
    classes: Seq<Seq<char>>,
    sets: Seq<(Seq<Seq<char>>, Seq<Seq<char>>)>,
) -> bool {
    &&& exists|init: Seq<ClassPair>, cur: Seq<(Seq<Seq<char>>, Seq<Seq<char>>)>| #[trigger] settled_places(provider, log, init, cur, sets)
    &&& forall|j: int| 0 <= j < sets.len() ==> valid_alpha_set(provider, (#[trigger] sets[j]).0, sets[j].1) && within(classes, sets[j])
    &&& forall|a: Seq<char>, b: Seq<char>| #[trigger] initial_pair(provider, log, a, b) ==> covers(sets, (seq![a], seq![b]))
    &&& forall|i: int, j: int| 0 <= i < sets.len() && 0 <= j < sets.len() && #[trigger] full_subset(sets[i], sets[j])
        ==> same_alpha_set(sets[i], sets[j])
    &&& forall|i: int, j: int| 0 <= i < j < sets.len() ==> !same_alpha_set(#[trigger] sets[i], #[trigger] sets[j])
}

/// The net that the alpha algorithm discovers for `log` under `provider`:
/// its places come from sets satisfying `alpha_places`, and, as long as
/// identifiers did not run out, it has the shape of `net_shape`.
pub open spec fn alpha_net<P: AlphaRelationsProvider>(
    net: PetriNet,
    provider: &P,
    log: Seq<Seq<Seq<char>>>,
    classes: Seq<Seq<char>>,
    starts: Seq<Seq<char>>,
    ends: Seq<Seq<char>>,
) -> bool {
    &&& net.wf()
    &&& exists|sets: Seq<(Seq<Seq<char>>, Seq<Seq<char>>)>| #[trigger] alpha_places(provider, log, classes, sets)
        && (ids_needed(classes, sets, starts, ends) <= u64::MAX ==> exists|tids: Seq<u64>, pids: Seq<u64>, s: u64, e: u64|
            net_shape(net, log, classes, sets, tids, pids, s, e))
}

proof fn lemma_settled_places<P: AlphaRelationsProvider>(
    provider: &P,
    log: Seq<Seq<Seq<char>>>,
    init: Seq<AlphaSet>,
    current: Seq<AlphaSet>,
    maximal: Seq<AlphaSet>,
)
    requires
        forall|i: int| 0 <= i < init.len() ==> #[trigger] is_initial_set(provider, log, init[i]@),
        forall|a: Seq<char>, b: Seq<char>| #[trigger] initial_pair(provider, log, a, b) ==> has_pair_set(init, a, b),
        forall|i: int, j: int| 0 <= i < j < init.len() ==> class_pair(#[trigger] init[i]@) != class_pair(#[trigger] init[j]@),
        pairs_view(current) == settle(provider, pairs_view(init), u64::MAX as nat),
        forall|i: int| 0 <= i < maximal.len() ==> (#[trigger] maximal[i]).wf() && maximal_in(current, maximal[i]@),
        forall|k: int| 0 <= k < current.len() && is_maximal(sets_view(current), #[trigger] current[k]@) ==> exists|i: int|
            0 <= i < maximal.len() && #[trigger] same_alpha_set(maximal[i]@, current[k]@),
        forall|i: int, j: int| 0 <= i < j < maximal.len() ==> !same_alpha_set(#[trigger] maximal[i]@, #[trigger] maximal[j]@),
    ensures
        settled_places(provider, log, pairs_view(init), sets_view(current), sets_view(maximal)),
{
    reveal(settled_places);
    let start = pairs_view(init);
    let cur = sets_view(current);
    let sets = sets_view(maximal);
    assert forall|i: int| 0 <= i < start.len() implies #[trigger] is_starting_candidate(provider, log, start[i]) by {
        assert(is_initial_set(provider, log, init[i]@));
        let (a, b) = choose|a: Seq<char>, b: Seq<char>| #[trigger] is_pair_set(init[i]@, a, b) && initial_pair(provider, log, a, b);
        lemma_pair_set_classes(init[i]@, a, b);
        assert(start[i] == class_pair(init[i]@));
    }
    assert forall|a: Seq<char>, b: Seq<char>| #[trigger] initial_pair(provider, log, a, b) implies exists|i: int|
        0 <= i < start.len() && #[trigger] start[i] == (set![a], set![b]) by {
        assert(has_pair_set(init, a, b));
        let i = choose|i: int| 0 <= i < init.len() && #[trigger] is_pair_set(init[i]@, a, b);
        lemma_pair_set_classes(init[i]@, a, b);
        assert(start[i] == class_pair(init[i]@));
    }
    assert(cur.map_values(|x: (Seq<Seq<char>>, Seq<Seq<char>>)| class_pair(x)) =~= pairs_view(current));
    assert forall|j: int| 0 <= j < sets.len() implies #[trigger] is_maximal_member(cur, sets[j]) by {
        assert(sets[j] == maximal[j]@);
        assert(maximal_in(current, maximal[j]@));
        let k = choose|k: int| 0 <= k < current.len() && maximal[j]@ == #[trigger] current[k]@
            && is_maximal(sets_view(current), current[k]@);
        assert(cur[k] == current[k]@);
    }
    assert forall|k: int| 0 <= k < cur.len() && is_maximal(cur, #[trigger] cur[k]) implies exists|j: int| 0 <= j < sets.len()
        && #[trigger] same_alpha_set(sets[j], cur[k]) by {
        assert(cur[k] == current[k]@);
        let q = choose|q: int| 0 <= q < maximal.len() && #[trigger] same_alpha_set(maximal[q]@, current[k]@);
        assert(sets[q] == maximal[q]@);
    }
    assert forall|i: int, j: int| 0 <= i < j < sets.len() implies !same_alpha_set(#[trigger] sets[i], #[trigger] sets[j]) by {
        assert(sets[i] == maximal[i]@ && sets[j] == maximal[j]@);
    }
    assert forall|i: int, j: int| 0 <= i < j < start.len() implies #[trigger] start[i] != #[trigger] start[j] by {
        assert(start[i] == class_pair(init[i]@) && start[j] == class_pair(init[j]@));
    }
    assert(starting_candidates(provider, log, start));
}

fn do_discover_petri_net_alpha<P: AlphaRelationsProvider>(info: &EventLogInfo, provider: &P, ids: &mut IdGenerator) -> (r: PetriNet)
    requires
        info.wf(),
        provider.wf(),
        old(ids)@ == 0,
    ensures
        alpha_net(r, provider, info.log(), info.all_event_classes_view(), info.start_event_classes_view(),
            info.end_event_classes_view()),
        exists|sets: Seq<(Seq<Seq<char>>, Seq<Seq<char>>)>| #[trigger] alpha_places(provider, info.log(), info.all_event_classes_view(), sets)
            && (ids_needed(info.all_event_classes_view(), sets, info.start_event_classes_view(), info.end_event_classes_view())
                <= u64::MAX ==> final(ids)@ == ids_needed(info.all_event_classes_view(), sets, info.start_event_classes_view(),
                info.end_event_classes_view()) && ids_below(r, final(ids)@)
                && exists|tids: Seq<u64>, pids: Seq<u64>, s: u64, e: u64|
                    net_shape(r, info.log(), info.all_event_classes_view(), sets, tids, pids, s, e)),
{
    let ghost cv = info.all_event_classes_view();
    let ghost log = info.log();
    let classes = info.all_event_classes();
    let initial = initial_alpha_sets(info, provider);
    let ghost init = initial@;
    let ghost start = pairs_view(initial@);
    let current = extend_until_stable(initial, provider, Ghost(cv));
    let maximal = maximal_sets(&current);
    let ghost sets = sets_view(maximal@);
    let ghost cur = sets_view(current@);
    proof {
        lemma_settled_places(provider, log, init, current@, maximal@);
        assert(settled_places(provider, log, start, cur, sets));
        crate::class_set::lemma_sorted_no_duplicates(cv);
        assert forall|i: int| 0 <= i < maximal@.len() implies (#[trigger] maximal@[i]).wf() && within(cv, maximal@[i]@)
            && valid_alpha_set(provider, maximal@[i]@.0, maximal@[i]@.1) by {
            assert(maximal_in(current@, maximal@[i]@));
            let k = choose|k: int| 0 <= k < current@.len() && maximal@[i]@ == #[trigger] current@[k]@
                && is_maximal(sets_view(current@), current@[k]@);
            assert(current@[k].wf());
        }
        assert forall|j: int| 0 <= j < sets.len() implies valid_alpha_set(provider, (#[trigger] sets[j]).0, sets[j].1)
            && within(cv, sets[j]) by {
            assert(sets[j] == maximal@[j]@);
            assert(maximal@[j].wf());
        }
        assert forall|a: Seq<char>, b: Seq<char>| #[trigger] initial_pair(provider, log, a, b) implies covers(sets, (seq![a], seq![b])) by {
            let x = (seq![a], seq![b]);
            assert(has_pair_set(init, a, b));
            let i = choose|i: int| 0 <= i < init.len() && #[trigger] is_pair_set(init[i]@, a, b);
            assert(full_subset(x, init[i]@)) by {
                assert forall|y: Seq<char>| x.1.contains(y) implies init[i]@.1.contains(y) by {
                    assert(x.1[0] == b);
                }
            }
            assert(sets_view(init)[i] == init[i]@);
            assert(covers(cur, sets_view(init)[i]));
            let k = choose|k: int| 0 <= k < cur.len() && #[trigger] full_subset(sets_view(init)[i], cur[k]);
            assert(cur[k] == current@[k]@);
            lemma_full_subset_transitive(x, init[i]@, current@[k]@);
            assert forall|q: int| 0 <= q < current@.len() implies (#[trigger] current@[q]).wf() && within(cv, current@[q]@) by {}
            lemma_covered_by_maximal(cv, current@, x, k);
            let m = choose|m: int| 0 <= m < current@.len() && is_maximal(sets_view(current@), #[trigger] current@[m]@)
                && full_subset(x, current@[m]@);
            let q = choose|q: int| 0 <= q < maximal@.len() && #[trigger] same_alpha_set(maximal@[q]@, current@[m]@);
            assert(sets[q] == maximal@[q]@);
            assert(full_subset(x, sets[q])) by {
                assert forall|y: Seq<char>| x.0.contains(y) implies sets[q].0.contains(y) by {
                    assert(current@[m]@.0.contains(y));
                }
                assert forall|y: Seq<char>| x.1.contains(y) implies sets[q].1.contains(y) by {
                    assert(current@[m]@.1.contains(y));
                }
            }
        }
        assert forall|i: int, j: int| 0 <= i < j < sets.len() implies !same_alpha_set(#[trigger] sets[i], #[trigger] sets[j]) by {
            assert(sets[i] == maximal@[i]@ && sets[j] == maximal@[j]@);
        }
        assert forall|i: int, j: int| 0 <= i < sets.len() && 0 <= j < sets.len() && #[trigger] full_subset(sets[i], sets[j])
            implies same_alpha_set(sets[i], sets[j]) by {
            assert(sets[i] == maximal@[i]@);
            assert(sets[j] == maximal@[j]@);
            assert(maximal_in(current@, maximal@[i]@));
            assert(maximal_in(current@, maximal@[j]@));
            let ki = choose|k: int| 0 <= k < current@.len() && maximal@[i]@ == #[trigger] current@[k]@
                && is_maximal(sets_view(current@), current@[k]@);
            let kj = choose|k: int| 0 <= k < current@.len() && maximal@[j]@ == #[trigger] current@[k]@
                && is_maximal(sets_view(current@), current@[k]@);
            assert(sets_view(current@)[kj] == current@[kj]@);
            assert(full_subset(current@[ki]@, sets_view(current@)[kj]));
        }
        assert(alpha_places(provider, log, cv, sets));
    }
    create_petri_net(info, &maximal, ids)
}

/// Discovers a Petri net from the log information with the alpha algorithm.
pub fn discover_petri_net_alpha(event_log_info: &EventLogInfo) -> (r: PetriNet)
    requires
        event_log_info.wf(),
    ensures
        exists|provider: DefaultAlphaRelationsProvider| provider.log() == event_log_info.log() && #[trigger] alpha_net(r, &provider,
            event_log_info.log(), event_log_info.all_event_classes_view(), event_log_info.start_event_classes_view(),
            event_log_info.end_event_classes_view()),
{
    let dfg_info = event_log_info.dfg_info();
    let provider = DefaultAlphaRelationsProvider::new(dfg_info);
    let mut ids = IdGenerator::new();
    do_discover_petri_net_alpha(event_log_info, &provider, &mut ids)
}

/// `l` and `r` are the classes other than `c` that directly precede and
/// directly follow `c`, each in ascending order.
pub open spec fn loop_place_sides(log: Seq<Seq<Seq<char>>>, c: Seq<char>, l: Seq<Seq<char>>, r: Seq<Seq<char>>) -> bool {
    &&& crate::class_set::strictly_sorted(l)
    &&& crate::class_set::strictly_sorted(r)
    &&& forall|x: Seq<char>| l.contains(x) <==> (directly_follows(log, x, c) && x != c)
    &&& forall|x: Seq<char>| r.contains(x) <==> (directly_follows(log, c, x) && x != c)
}

/// The place of a one-length loop `c`: fed by the classes before `c`,
/// feeding those after it.
fn loop_alpha_set(info: &EventLogInfo, name: &String) -> (r: AlphaSet)
    requires
        info.wf(),
    ensures
        r.wf(),
        loop_place_sides(info.log(), name@, r.left(), r.right()),
{
    let dfg = info.dfg_info();
    let mut set = AlphaSet::empty();
    match dfg.get_followed_events(name.as_str()) {
        Some(followers) => {
            let mut i: usize = 0;
            while i < followers.len()
                invariant
                    set.wf(),
                    set.left() == Seq::<Seq<char>>::empty(),
                    forall|c: Seq<char>| followers@.contains(c) <==> directly_follows(info.log(), name@, c),
                    i <= followers@.len(),
                    forall|x: Seq<char>| set.right().contains(x) <==> (followers@.take(i as int).contains(x) && x != name@),
                decreases followers@.len() - i,
            {
                let e = followers.get(i);
                if !crate::text::str_eq(e.as_str(), name.as_str()) {
                    set.insert_right_class(e.clone());
                }
                proof {
                    assert forall|x: Seq<char>| set.right().contains(x) <==> (followers@.take(i + 1).contains(x) && x != name@) by {
                        lemma_take_step(followers@, i as int, x);
                    }
                }
                i = i + 1;
            }
            assert(followers@.take(followers@.len() as int) =~= followers@);
        },
        None => {},
    }
    let ghost right = set.right();
    match dfg.get_precedes_events(name.as_str()) {
        Some(precedes) => {
            let mut i: usize = 0;
            while i < precedes.len()
                invariant
                    set.wf(),
                    set.right() == right,
                    forall|c: Seq<char>| precedes@.contains(c) <==> directly_follows(info.log(), c, name@),
                    i <= precedes@.len(),
                    forall|x: Seq<char>| set.left().contains(x) <==> (precedes@.take(i as int).contains(x) && x != name@),
                decreases precedes@.len() - i,
            {
                let e = precedes.get(i);
                if !crate::text::str_eq(e.as_str(), name.as_str()) {
                    set.insert_left_class(e.clone());
                }
                proof {
                    assert forall|x: Seq<char>| set.left().contains(x) <==> (precedes@.take(i + 1).contains(x) && x != name@) by {
                        lemma_take_step(precedes@, i as int, x);
                    }
                }
                i = i + 1;
            }
            assert(precedes@.take(precedes@.len() as int) =~= precedes@);
        },
        None => {},
    }
    proof {
        set.lemma_sorted();
    }
    set
}

/// Every transition and place of `n1` is in `n2` unchanged.
pub open spec fn grows(n1: PetriNet, n2: PetriNet) -> bool {
    &&& forall|id: u64| #[trigger] n1.transitions_map().dom().contains(id) ==> n2.transitions_map().dom().contains(id)
        && n2.transitions_map()[id] == n1.transitions_map()[id]
    &&& forall|id: u64| #[trigger] n1.places_map().dom().contains(id) ==> n2.places_map().dom().contains(id)
        && n2.places_map()[id] == n1.places_map()[id]
}

/// `net` keeps everything of `base`, its markings included.
pub open spec fn extends(base: PetriNet, net: PetriNet) -> bool {
    &&& grows(base, net)
    &&& net.initial() == base.initial()
    &&& net.final_() == base.final_()
}

/// The transition `tid` stands for the one-length loop `c`: it is named and
/// labelled `c`, and its only arcs go out to and come in from the place `p`,
/// named after the sides `(l, r)` of `c`.
pub open spec fn loop_transition_at(
    net: PetriNet,
    log: Seq<Seq<Seq<char>>>,
    c: Seq<char>,
    tid: u64,
    p: u64,
    l: Seq<Seq<char>>,
    r: Seq<Seq<char>>,
) -> bool {
    &&& net.transitions_map().dom().contains(tid)
    &&& net.transitions_map()[tid].name == c
    &&& net.transitions_map()[tid].data == Some(c)
    &&& net.places_map().dom().contains(p)
    &&& net.places_map()[p] == place_name((l, r))
    &&& loop_place_sides(log, c, l, r)
    &&& forall|q: u64| #[trigger] touches(net.transitions_map()[tid].outgoing, q) <==> q == p
    &&& forall|q: u64| #[trigger] touches(net.transitions_map()[tid].incoming, q) <==> q == p
}

pub open spec fn has_loop_transition(net: PetriNet, log: Seq<Seq<Seq<char>>>, c: Seq<char>) -> bool {
    exists|tid: u64, p: u64, l: Seq<Seq<char>>, r: Seq<Seq<char>>| #[trigger] loop_transition_at(net, log, c, tid, p, l, r)
}

proof fn lemma_loop_transition_kept(n1: PetriNet, n2: PetriNet, log: Seq<Seq<Seq<char>>>, c: Seq<char>)
    requires
        has_loop_transition(n1, log, c),
        grows(n1, n2),
    ensures
        has_loop_transition(n2, log, c),
{
    let (tid, p, l, r) = choose|tid: u64, p: u64, l: Seq<Seq<char>>, r: Seq<Seq<char>>| #[trigger] loop_transition_at(n1, log, c, tid, p, l, r);
    assert(n1.transitions_map().dom().contains(tid));
    assert(n1.places_map().dom().contains(p));
    assert(loop_transition_at(n2, log, c, tid, p, l, r));
}

/// `name` names the place between the neighbours of one of the loops `loops`.
pub open spec fn loop_place_named(log: Seq<Seq<Seq<char>>>, loops: Seq<Seq<char>>, name: Seq<char>) -> bool {
    exists|c: Seq<char>, l: Seq<Seq<char>>, r: Seq<Seq<char>>| loops.contains(c) && #[trigger] loop_place_sides(log, c, l, r)
        && name == place_name((l, r))
}

/// The places of `r` are those of `base` and places named after loops; a
/// place is added only when no place of that name was there, so no added
/// place shares its name with another place.
pub open spec fn loop_places_added(base: PetriNet, r: PetriNet, log: Seq<Seq<Seq<char>>>, loops: Seq<Seq<char>>) -> bool {
    &&& forall|id: u64| #[trigger] r.places_map().dom().contains(id) ==> base.places_map().dom().contains(id)
        || loop_place_named(log, loops, r.places_map()[id])
    &&& forall|a: u64, b: u64| #[trigger] r.places_map().dom().contains(a) && #[trigger] r.places_map().dom().contains(b) && a != b
        && !base.places_map().dom().contains(a) ==> r.places_map()[a] != r.places_map()[b]
}

/// The pieces the alpha+ algorithm is built from, and how its result
/// relates to them: `loops` are the one-length loops of the log, `base` is
/// the alpha net (under the alpha+ relations) of the log without them, with
/// places from `sets`; the result extends `base` with one transition per loop.
pub open spec fn alpha_plus_parts(
    r: PetriNet,
    log: Seq<Seq<Seq<char>>>,
    loops: Seq<Seq<char>>,
    provider: AlphaPlusRelationsProvider,
    info: EventLogInfo,
    base: PetriNet,
    sets: Seq<(Seq<Seq<char>>, Seq<Seq<char>>)>,
) -> bool {
    &&& crate::class_set::strictly_sorted(loops)
    &&& forall|c: Seq<char>| #[trigger] loops.contains(c) <==> one_length_loop(log, c)
    &&& provider.wf()
    &&& provider.dfg_log() == log_without(log, loops)
    &&& provider.triangle_log() == log
    &&& info.wf()
    &&& info.log() == log_without(log, loops)
    &&& base.wf()
    &&& alpha_places(&provider, info.log(), info.all_event_classes_view(), sets)
    &&& ids_needed(info.all_event_classes_view(), sets, info.start_event_classes_view(), info.end_event_classes_view())
        + 4 * loops.len() <= u64::MAX ==> {
        &&& exists|tids: Seq<u64>, pids: Seq<u64>, s: u64, e: u64|
            net_shape(base, info.log(), info.all_event_classes_view(), sets, tids, pids, s, e)
        &&& extends(base, r)
        &&& forall|c: Seq<char>| #[trigger] loops.contains(c) ==> has_loop_transition(r, log, c)
        &&& forall|id: u64| #[trigger] r.transitions_map().dom().contains(id) ==> base.transitions_map().dom().contains(id)
            || loops.contains(r.transitions_map()[id].name)
        &&& loop_places_added(base, r, log, loops)
    }
}

/// Discovers a Petri net with the alpha+ algorithm: the alpha algorithm
/// under the alpha+ relations on the log without its one-length loops, then
/// one transition per loop, attached to the place between its neighbours.
pub fn discover_petri_net_alpha_plus(log: &EventLog) -> (r: PetriNet)
    requires
        crate::alpha::provider::all_traces_at_least(log@, 2),
        total_events(log@) < usize::MAX,
    ensures
        r.wf(),
        exists|loops: Seq<Seq<char>>, provider: AlphaPlusRelationsProvider, info: EventLogInfo, base: PetriNet,
            sets: Seq<(Seq<Seq<char>>, Seq<Seq<char>>)>| #[trigger] alpha_plus_parts(r, log@, loops, provider, info, base, sets),
{
    let loops = find_transitions_one_length_loop(log);
    let info = EventLogInfo::create_from_ignoring(log, &loops);
    let provider = AlphaPlusRelationsProvider::new(info.dfg_info(), log);
    let mut ids = IdGenerator::new();
    let mut net = do_discover_petri_net_alpha(&info, &provider, &mut ids);
    let ghost base = net;
    let ghost cv = info.all_event_classes_view();
    let ghost sets = choose|sets: Seq<(Seq<Seq<char>>, Seq<Seq<char>>)>| #[trigger] alpha_places(&provider, info.log(), cv, sets)
        && (ids_needed(cv, sets, info.start_event_classes_view(), info.end_event_classes_view())
            <= u64::MAX ==> ids@ == ids_needed(cv, sets, info.start_event_classes_view(), info.end_event_classes_view())
            && ids_below(base, ids@)
            && exists|tids: Seq<u64>, pids: Seq<u64>, s: u64, e: u64| net_shape(base, info.log(), cv, sets, tids, pids, s, e));
    let ghost start = ids@;
    let ghost fits = ids_needed(cv, sets, info.start_event_classes_view(), info.end_event_classes_view()) + 4 * loops@.len()
        <= u64::MAX;
    let full_info = EventLogInfo::create_from(log);
    let mut q: usize = 0;
    proof {
        assert(alpha_net(base, &provider, info.log(), cv, info.start_event_classes_view(), info.end_event_classes_view()));
        assert(loops@.take(0) =~= Seq::<Seq<char>>::empty());
        assert(loop_places_added(base, net, log@, loops@.take(0)));
    }
    while q < loops.len()
        invariant
            net.wf(),
            loops.wf(),
            full_info.wf(),
            full_info.log() == log@,
            q <= loops@.len(),
            fits ==> start + 4 * loops@.len() <= u64::MAX,
            fits ==> ids@ <= start + 4 * q,
            fits ==> ids_below(net, ids@),
            fits ==> extends(base, net),
            fits ==> forall|c: Seq<char>| #[trigger] loops@.take(q as int).contains(c) ==> has_loop_transition(net, log@, c),
            fits ==> forall|id: u64| #[trigger] net.transitions_map().dom().contains(id) ==> base.transitions_map().dom().contains(id)
                || loops@.take(q as int).contains(net.transitions_map()[id].name),
            fits ==> loop_places_added(base, net, log@, loops@.take(q as int)),
        decreases loops@.len() - q,
    {
        let name = loops.get(q);
        let set = loop_alpha_set(&full_info, name);
        let ghost before = net;
        let ghost c0 = ids@;
        let tid = net.add_transition(Transition::empty(name.clone(), Some(name.clone()), &mut ids));
        let pname = set.to_string();
        let ghost c1 = ids@;
        let found = net.find_place_id_by_name(pname.as_str());
        let ghost named = net;
        let pid = match found {
            Some(found) => found,
            None => net.add_place(Place::with_name(pname, &mut ids)),
        };
        let ghost mid = net;
        let ghost c2 = ids@;
        net.connect_transition_to_place(tid, pid, &mut ids);
        let ghost c3 = ids@;
        net.connect_place_to_transition(pid, tid, &mut ids);
        proof {
            if fits {
                assert(c0 < u64::MAX);
                assert(!before.transitions_map().dom().contains(c0));
                assert(c1 == c0 + 1);
                assert(c2 <= c1 + 1);
                assert(c3 == c2 + 1);
                assert(ids@ == c3 + 1);
                assert(mid.transitions_map()[tid].outgoing == Seq::<(u64, u64)>::empty());
                assert(mid.transitions_map()[tid].incoming == Seq::<(u64, u64)>::empty());
                assert(grows(before, net)) by {
                    assert forall|id: u64| #[trigger] before.transitions_map().dom().contains(id) implies net.transitions_map().dom().contains(id)
                        && net.transitions_map()[id] == before.transitions_map()[id] by {
                        assert(id != tid);
                    }
                    assert forall|id: u64| #[trigger] before.places_map().dom().contains(id) implies net.places_map().dom().contains(id)
                        && net.places_map()[id] == before.places_map()[id] by {
                        assert(id < c0);
                    }
                }
                assert(ids_below(net, ids@)) by {
                    assert forall|id: u64| #[trigger] net.transitions_map().dom().contains(id) implies id < ids@ by {
                        if id != tid {
                            assert(before.transitions_map().dom().contains(id));
                        }
                    }
                    assert forall|id: u64| #[trigger] net.places_map().dom().contains(id) implies id < ids@ by {
                        if id != pid {
                            assert(before.places_map().dom().contains(id));
                        }
                    }
                }
                lemma_touches_push(Seq::<(u64, u64)>::empty(), (c2, pid), pid);
                assert forall|x: u64| #[trigger] touches(net.transitions_map()[tid].outgoing, x) <==> x == pid by {
                    lemma_touches_push(Seq::<(u64, u64)>::empty(), (c2, pid), x);
                }
                assert forall|x: u64| #[trigger] touches(net.transitions_map()[tid].incoming, x) <==> x == pid by {
                    lemma_touches_push(Seq::<(u64, u64)>::empty(), (c3, pid), x);
                }
                assert(loop_transition_at(net, log@, name@, tid, pid, set.left(), set.right()));
                assert forall|c: Seq<char>| #[trigger] loops@.take(q + 1).contains(c) implies has_loop_transition(net, log@, c) by {
                    lemma_take_step(loops@, q as int, c);
                    if c != name@ {
                        lemma_loop_transition_kept(before, net, log@, c);
                    }
                }
                let qs = loops@.take(q + 1);
                lemma_take_step(loops@, q as int, name@);
                assert(loop_place_sides(log@, name@, set.left(), set.right()));
                assert(loop_place_named(log@, qs, net.places_map()[pid]));
                assert forall|id: u64| #[trigger] net.places_map().dom().contains(id) implies base.places_map().dom().contains(id)
                    || loop_place_named(log@, qs, net.places_map()[id]) by {
                    if id != pid {
                        assert(before.places_map().dom().contains(id));
                        assert(net.places_map()[id] == before.places_map()[id]);
                        if !base.places_map().dom().contains(id) {
                            assert(loop_place_named(log@, loops@.take(q as int), before.places_map()[id]));
                            let (c, l, r) = choose|c: Seq<char>, l: Seq<Seq<char>>, r: Seq<Seq<char>>| loops@.take(q as int).contains(c)
                                && #[trigger] loop_place_sides(log@, c, l, r) && before.places_map()[id] == place_name((l, r));
                            lemma_take_step(loops@, q as int, c);
                        }
                    }
                }
                assert forall|a: u64, b: u64| #[trigger] net.places_map().dom().contains(a) && #[trigger] net.places_map().dom().contains(b) && a != b
                    && !base.places_map().dom().contains(a) implies net.places_map()[a] != net.places_map()[b] by {
                    if found is None {
                        if a == pid {
                            assert(named.places_map().dom().contains(b));
                        } else if b == pid {
                            assert(named.places_map().dom().contains(a));
                        } else {
                            assert(before.places_map().dom().contains(a) && before.places_map().dom().contains(b));
                        }
                    } else {
                        assert(before.places_map().dom().contains(a) && before.places_map().dom().contains(b));
                    }
                }
                assert(loop_places_added(base, net, log@, qs));
                assert forall|id: u64| #[trigger] net.transitions_map().dom().contains(id) implies base.transitions_map().dom().contains(id)
                    || loops@.take(q + 1).contains(net.transitions_map()[id].name) by {
                    lemma_take_step(loops@, q as int, net.transitions_map()[id].name);
                    if id != tid {
                        assert(before.transitions_map().dom().contains(id));
                    }
                }
            }
        }
        q = q + 1;
    }
    proof {
        assert(loops@.take(loops@.len() as int) =~= loops@);
        crate::class_set::lemma_sorted_no_duplicates(loops@);
        if fits {
            assert(ids_needed(cv, sets, info.start_event_classes_view(), info.end_event_classes_view()) <= u64::MAX);
        }
        assert(alpha_plus_parts(net, log@, loops@, provider, info, base, sets));
    }
    net
}

} // verus!
