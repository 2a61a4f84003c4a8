//! Ordering relations between event classes on which the alpha algorithms
//! decide: direct succession, causality, parallelism and unrelatedness, and
//! the refinements of alpha+ and alpha#.
use vstd::prelude::*;
use crate::count_map::PairSet;
use crate::event_log::{EventLog, Trace};
use crate::event_log_info::{DfgInfo, EventLogInfo, directly_follows, is_class};

verus! {

/// The four basic relations of the alpha algorithm.
pub trait AlphaRelationsProvider {
    spec fn wf(&self) -> bool;

    spec fn direct(&self, a: Seq<char>, b: Seq<char>) -> bool;

    spec fn causal(&self, a: Seq<char>, b: Seq<char>) -> bool;

    spec fn parallel(&self, a: Seq<char>, b: Seq<char>) -> bool;

    spec fn unrelated(&self, a: Seq<char>, b: Seq<char>) -> bool;

    fn is_in_causal_relation(&self, first: &str, second: &str) -> (r: bool)
        requires
            self.wf(),
        ensures
            r == self.causal(first@, second@),
    ;

    fn is_in_parallel_relation(&self, first: &str, second: &str) -> (r: bool)
        requires
            self.wf(),
        ensures
            r == self.parallel(first@, second@),
    ;

    fn is_in_direct_relation(&self, first: &str, second: &str) -> (r: bool)
        requires
            self.wf(),
        ensures
            r == self.direct(first@, second@),
    ;

    fn is_in_unrelated_relation(&self, first: &str, second: &str) -> (r: bool)
        requires
            self.wf(),
        ensures
            r == self.unrelated(first@, second@),
    ;
}

/// The relations of the plain alpha algorithm, read off a directly-follows graph.
pub struct DefaultAlphaRelationsProvider<'a> {
    dfg_info: &'a DfgInfo,
}

impl<'a> DefaultAlphaRelationsProvider<'a> {
    pub fn new(dfg_info: &'a DfgInfo) -> (r: Self)
        ensures
            r.log() == dfg_info.log(),
            r.wf() == dfg_info.wf(),
    {
        Self { dfg_info }
    }

    /// The log whose directly-follows graph the relations come from.
    pub closed spec fn log(&self) -> Seq<Seq<Seq<char>>> {
        self.dfg_info.log()
    }
}

impl<'a> AlphaRelationsProvider for DefaultAlphaRelationsProvider<'a> {
    closed spec fn wf(&self) -> bool {
        self.dfg_info.wf()
    }

    open spec fn direct(&self, a: Seq<char>, b: Seq<char>) -> bool {
        directly_follows(self.log(), a, b)
    }

    open spec fn causal(&self, a: Seq<char>, b: Seq<char>) -> bool {
        self.direct(a, b) && !self.direct(b, a)
    }

    open spec fn parallel(&self, a: Seq<char>, b: Seq<char>) -> bool {
        self.direct(a, b) && self.direct(b, a)
    }

    open spec fn unrelated(&self, a: Seq<char>, b: Seq<char>) -> bool {
        !self.direct(a, b) && !self.direct(b, a)
    }

    fn is_in_causal_relation(&self, first: &str, second: &str) -> (r: bool) {
        self.is_in_direct_relation(first, second) && !self.is_in_direct_relation(second, first)
    }

    fn is_in_parallel_relation(&self, first: &str, second: &str) -> (r: bool) {
        self.is_in_direct_relation(first, second) && self.is_in_direct_relation(second, first)
    }

    fn is_in_direct_relation(&self, first: &str, second: &str) -> (r: bool) {
        self.dfg_info.is_in_directly_follows_relation(first, second)
    }

    fn is_in_unrelated_relation(&self, first: &str, second: &str) -> (r: bool) {
        !self.is_in_direct_relation(first, second) && !self.is_in_direct_relation(second, first)
    }
}

/// Some trace holds `a b a` at consecutive positions.
pub open spec fn triangle(log: Seq<Seq<Seq<char>>>, a: Seq<char>, b: Seq<char>) -> bool {
    exists|t: int, i: int|
        0 <= t < log.len() && 0 <= i && i + 2 < log[t].len() && #[trigger] log[t][i] == a && log[t][i + 1] == b
            && log[t][i + 2] == a
}

/// Every trace holds at least `n` events.
pub open spec fn all_traces_at_least(log: Seq<Seq<Seq<char>>>, n: int) -> bool {
    forall|t: int| 0 <= t < log.len() ==> #[trigger] log[t].len() >= n
}

/// The `a b a` patterns of a log.
pub fn calculate_triangle_relations(log: &EventLog) -> (r: PairSet)
    requires
        all_traces_at_least(log@, 2),
    ensures
        r.wf(),
        forall|a: Seq<char>, b: Seq<char>| #[trigger] r.pairs().contains((a, b)) <==> triangle(log@, a, b),
{
    let ghost l = log@;
    let traces = log.traces();
    let mut r = PairSet::new();
    let mut t: usize = 0;
    while t < traces.len()
        invariant
            l == log@,
            crate::event_log::traces_view(traces@) == l,
            t <= l.len(),
            all_traces_at_least(l, 2),
            r.wf(),
            forall|a: Seq<char>, b: Seq<char>| #[trigger] r.pairs().contains((a, b)) <==> triangle(l.take(t as int), a, b),
        decreases traces.len() - t,
    {
        let trace: &Trace = &traces[t];
        let ghost tr = l[t as int];
        assert(trace@ == tr);
        let n = trace.len();
        let mut i: usize = 0;
        while i < n - 2
            invariant
                trace@ == tr,
                n == tr.len(),
                n >= 2,
                i <= n - 2,
                t < l.len(),
                tr == l[t as int],
                r.wf(),
                forall|a: Seq<char>, b: Seq<char>| #[trigger] r.pairs().contains((a, b)) <==> (triangle(l.take(t as int), a, b)
                    || exists|k: int| 0 <= k < i && #[trigger] tr[k] == a && tr[k + 1] == b && tr[k + 2] == a),
            decreases n - 2 - i,
        {
            let x = trace.name_at(i);
            let z = trace.name_at(i + 2);
            let ghost before = r;
            if crate::text::str_eq(x.as_str(), z.as_str()) {
                let y = trace.name_at(i + 1);
                r.insert(x.as_str(), y.as_str());
            }
            assert forall|a: Seq<char>, b: Seq<char>| #[trigger] r.pairs().contains((a, b)) <==> (triangle(l.take(t as int), a, b)
                || exists|k: int| 0 <= k < i + 1 && #[trigger] tr[k] == a && tr[k + 1] == b && tr[k + 2] == a) by {
                if exists|k: int| 0 <= k < i + 1 && #[trigger] tr[k] == a && tr[k + 1] == b && tr[k + 2] == a {
                    let k = choose|k: int| 0 <= k < i + 1 && #[trigger] tr[k] == a && tr[k + 1] == b && tr[k + 2] == a;
                    if k < i {
                        assert(exists|k: int| 0 <= k < i && #[trigger] tr[k] == a && tr[k + 1] == b && tr[k + 2] == a);
                    }
                }
                if (a, b) == (tr[i as int], tr[i + 1]) && tr[i as int] == tr[i + 2] {
                    assert(tr[i as int] == a && tr[i + 1] == b && tr[i + 2] == a);
                }
            }
            i = i + 1;
        }
        assert forall|a: Seq<char>, b: Seq<char>| #[trigger] r.pairs().contains((a, b)) <==> triangle(l.take(t + 1), a, b) by {
            if triangle(l.take(t + 1), a, b) {
                let (u, k) = choose|u: int, k: int|
                    0 <= u < l.take(t + 1).len() && 0 <= k && k + 2 < l.take(t + 1)[u].len() && #[trigger] l.take(t + 1)[u][k] == a
                        && l.take(t + 1)[u][k + 1] == b && l.take(t + 1)[u][k + 2] == a;
                if u < t {
                    assert(l.take(t as int)[u][k] == a);
                } else {
                    assert(tr[k] == a);
                }
            }
            if triangle(l.take(t as int), a, b) {
                let (u, k) = choose|u: int, k: int|
                    0 <= u < l.take(t as int).len() && 0 <= k && k + 2 < l.take(t as int)[u].len() && #[trigger] l.take(t as int)[u][k] == a
                        && l.take(t as int)[u][k + 1] == b && l.take(t as int)[u][k + 2] == a;
                assert(l.take(t + 1)[u][k] == a);
            }
            if exists|k: int| 0 <= k < n - 2 && #[trigger] tr[k] == a && tr[k + 1] == b && tr[k + 2] == a {
                let k = choose|k: int| 0 <= k < n - 2 && #[trigger] tr[k] == a && tr[k + 1] == b && tr[k + 2] == a;
                assert(l.take(t + 1)[t as int][k] == a);
            }
        }
        t = t + 1;
    }
    assert(l.take(l.len() as int) =~= l);
    r
}


/// The relations of alpha+: causality is also granted where `a b a` and
/// `b a b` patterns both occur.
pub struct AlphaPlusRelationsProvider<'a> {
    dfg_info: &'a DfgInfo,
    triangle_relations: PairSet,
    log: Ghost<Seq<Seq<Seq<char>>>>,
}

impl<'a> AlphaPlusRelationsProvider<'a> {
    pub fn new(dfg_info: &'a DfgInfo, log: &EventLog) -> (r: Self)
        requires
            dfg_info.wf(),
            all_traces_at_least(log@, 2),
        ensures
            r.wf(),
            r.dfg_log() == dfg_info.log(),
            r.triangle_log() == log@,
    {
        let triangle_relations = calculate_triangle_relations(log);
        Self { dfg_info, triangle_relations, log: Ghost(log@) }
    }

    /// The log whose directly-follows graph gives direct succession.
    pub closed spec fn dfg_log(&self) -> Seq<Seq<Seq<char>>> {
        self.dfg_info.log()
    }

    /// The log whose `a b a` patterns give the triangle relation.
    pub closed spec fn triangle_log(&self) -> Seq<Seq<Seq<char>>> {
        self.log@
    }

    pub open spec fn triangle(&self, a: Seq<char>, b: Seq<char>) -> bool {
        triangle(self.triangle_log(), a, b)
    }

    pub open spec fn romb(&self, a: Seq<char>, b: Seq<char>) -> bool {
        self.triangle(a, b) && self.triangle(b, a)
    }

    pub fn is_in_triangle_relation(&self, first: &str, second: &str) -> (r: bool)
        requires
            self.wf(),
        ensures
            r == self.triangle(first@, second@),
    {
        self.triangle_relations.contains(first, second)
    }

    pub fn is_in_romb_relation(&self, first: &str, second: &str) -> (r: bool)
        requires
            self.wf(),
        ensures
            r == self.romb(first@, second@),
    {
        self.is_in_triangle_relation(first, second) && self.is_in_triangle_relation(second, first)
    }
}

impl<'a> AlphaRelationsProvider for AlphaPlusRelationsProvider<'a> {
    closed spec fn wf(&self) -> bool {
        &&& self.dfg_info.wf()
        &&& self.triangle_relations.wf()
        &&& forall|a: Seq<char>, b: Seq<char>| #[trigger] self.triangle_relations.pairs().contains((a, b)) <==> triangle(self.log@, a, b)
    }

    open spec fn direct(&self, a: Seq<char>, b: Seq<char>) -> bool {
        directly_follows(self.dfg_log(), a, b)
    }

    open spec fn causal(&self, a: Seq<char>, b: Seq<char>) -> bool {
        self.direct(a, b) && (!self.direct(b, a) || self.romb(a, b))
    }

    open spec fn parallel(&self, a: Seq<char>, b: Seq<char>) -> bool {
        self.direct(a, b) && self.direct(b, a) && !self.romb(a, b)
    }

    open spec fn unrelated(&self, a: Seq<char>, b: Seq<char>) -> bool {
        !self.direct(a, b) && !self.direct(b, a)
    }

    fn is_in_causal_relation(&self, first: &str, second: &str) -> (r: bool) {
        self.is_in_direct_relation(first, second) && (!self.is_in_direct_relation(second, first)
            || self.is_in_romb_relation(first, second))
    }

    fn is_in_parallel_relation(&self, first: &str, second: &str) -> (r: bool) {
        self.is_in_direct_relation(first, second) && self.is_in_direct_relation(second, first)
            && !self.is_in_romb_relation(first, second)
    }

    fn is_in_direct_relation(&self, first: &str, second: &str) -> (r: bool) {
        self.dfg_info.is_in_directly_follows_relation(first, second)
    }

    fn is_in_unrelated_relation(&self, first: &str, second: &str) -> (r: bool) {
        !self.is_in_direct_relation(first, second) && !self.is_in_direct_relation(second, first)
    }
}

/// The relations of alpha#, which adds advanced ordering on top of alpha+.
pub struct AlphaSharpRelationsProvider<'a> {
    alpha_plus_provider: AlphaPlusRelationsProvider<'a>,
    info: &'a EventLogInfo,
}

impl<'a> AlphaSharpRelationsProvider<'a> {
    pub fn new(log: &EventLog, info: &'a EventLogInfo) -> (r: Self)
        requires
            info.wf(),
            all_traces_at_least(log@, 2),
        ensures
            r.wf(),
            r.plus().dfg_log() == info.log(),
            r.plus().triangle_log() == log@,
            r.classes_log() == info.log(),
    {
        Self { alpha_plus_provider: AlphaPlusRelationsProvider::new(info.dfg_info(), log), info }
    }

    pub closed spec fn plus(&self) -> AlphaPlusRelationsProvider<'a> {
        self.alpha_plus_provider
    }

    /// The log whose classes are ranged over.
    pub closed spec fn classes_log(&self) -> Seq<Seq<Seq<char>>> {
        self.info.log()
    }

    /// The second half of advanced ordering: some `x`, `y` with
    /// `a -> x`, `y -> b`, `x` not following `y`, `x` not parallel to `b`
    /// and `a` not parallel to `y`.
    pub open spec fn advanced_ordering_second_part(&self, a: Seq<char>, b: Seq<char>) -> bool {
        exists|x: Seq<char>, y: Seq<char>|
            is_class(self.classes_log(), x) && is_class(self.classes_log(), y) && #[trigger] self.causal(a, x)
                && #[trigger] self.causal(y, b) && !self.direct(y, x) && !self.parallel(x, b) && !self.parallel(a, y)
    }

    pub open spec fn advanced_ordering(&self, a: Seq<char>, b: Seq<char>) -> bool {
        self.plus().causal(a, b) && self.advanced_ordering_second_part(a, b)
    }

    pub open spec fn real_causal_dependency(&self, a: Seq<char>, b: Seq<char>) -> bool {
        self.causal(a, b) && !self.advanced_ordering(a, b)
    }

    pub open spec fn redundant_advanced_ordering(&self, a: Seq<char>, b: Seq<char>) -> bool {
        exists|c: Seq<char>, d: Seq<char>|
            is_class(self.classes_log(), c) && is_class(self.classes_log(), d) && c != a && d != b
                && #[trigger] self.causal(c, d) && #[trigger] self.advanced_ordering(a, d) && #[trigger] self.advanced_ordering(c, b)
    }

    pub fn is_in_triangle_relation(&self, first: &str, second: &str) -> (r: bool)
        requires
            self.wf(),
        ensures
            r == self.plus().triangle(first@, second@),
    {
        self.alpha_plus_provider.is_in_triangle_relation(first, second)
    }

    pub fn is_in_romb_relation(&self, first: &str, second: &str) -> (r: bool)
        requires
            self.wf(),
        ensures
            r == self.plus().romb(first@, second@),
    {
        self.alpha_plus_provider.is_in_romb_relation(first, second)
    }

    pub fn is_in_advanced_ordering_relation(&self, first: &str, second: &str) -> (r: bool)
        requires
            self.wf(),
        ensures
            r == self.advanced_ordering(first@, second@),
    {
        self.alpha_plus_provider.is_in_causal_relation(first, second)
            && self.check_advanced_ordering_relation_second_part(first, second)
    }

    fn check_advanced_ordering_relation_second_part(&self, first: &str, second: &str) -> (r: bool)
        requires
            self.wf(),
        ensures
            r == self.advanced_ordering_second_part(first@, second@),
    {
        let classes = self.info.all_event_classes();
        let n = classes.len();
        let mut i: usize = 0;
        while i < n
            invariant
                self.wf(),
                classes.wf(),
                n == classes@.len(),
                i <= n,
                forall|c: Seq<char>| #[trigger] classes@.contains(c) <==> is_class(self.classes_log(), c),
                forall|k: int, y: Seq<char>| 0 <= k < i && classes@.contains(y) ==> !(#[trigger] self.causal(first@, classes@[k])
                    && #[trigger] self.causal(y, second@) && !self.direct(y, classes@[k]) && !self.parallel(classes@[k], second@)
                    && !self.parallel(first@, y)),
            decreases n - i,
        {
            let x = classes.get(i);
            let mut j: usize = 0;
            while j < n
                invariant
                    self.wf(),
                    classes.wf(),
                    n == classes@.len(),
                    i < n,
                    forall|c: Seq<char>| #[trigger] classes@.contains(c) <==> is_class(self.classes_log(), c),
                    x@ == classes@[i as int],
                    j <= n,
                    forall|m: int| 0 <= m < j ==> !(#[trigger] self.causal(first@, x@) && self.causal(classes@[m], second@)
                        && !self.direct(classes@[m], x@) && !self.parallel(x@, second@) && !self.parallel(first@, classes@[m])),
                decreases n - j,
            {
                let y = classes.get(j);
                let first_causal_x = self.is_in_causal_relation(first, x.as_str());
                let y_causal_second = self.is_in_causal_relation(y.as_str(), second);
                let x_following_y = self.is_in_direct_relation(y.as_str(), x.as_str());
                let x_parallel_second = self.is_in_parallel_relation(x.as_str(), second);
                let first_parallel_y = self.is_in_parallel_relation(first, y.as_str());
                if first_causal_x && y_causal_second && !x_following_y && !x_parallel_second && !first_parallel_y {
                    assert(classes@.contains(x@));
                    assert(classes@.contains(y@));
                    return true;
                }
                j = j + 1;
            }
            proof {
                assert forall|k: int, y: Seq<char>| 0 <= k < i + 1 && classes@.contains(y) implies !(#[trigger] self.causal(first@, classes@[k])
                    && #[trigger] self.causal(y, second@) && !self.direct(y, classes@[k]) && !self.parallel(classes@[k], second@)
                    && !self.parallel(first@, y)) by {
                    if k == i {
                        let m = choose|m: int| 0 <= m < n && classes@[m] == y;
                        assert(!(self.causal(first@, x@) && self.causal(classes@[m], second@)
                            && !self.direct(classes@[m], x@) && !self.parallel(x@, second@) && !self.parallel(first@, classes@[m])));
                    }
                }
            }
            i = i + 1;
        }
        proof {
            if self.advanced_ordering_second_part(first@, second@) {
                let (x, y) = choose|x: Seq<char>, y: Seq<char>|
                    is_class(self.classes_log(), x) && is_class(self.classes_log(), y) && #[trigger] self.causal(first@, x)
                        && #[trigger] self.causal(y, second@) && !self.direct(y, x) && !self.parallel(x, second@) && !self.parallel(first@, y);
                assert(classes@.contains(x));
                let k = choose|k: int| 0 <= k < n && classes@[k] == x;
                assert(classes@.contains(y));
                assert(!(self.causal(first@, classes@[k]) && self.causal(y, second@) && !self.direct(y, classes@[k])
                    && !self.parallel(classes@[k], second@) && !self.parallel(first@, y)));
            }
        }
        false
    }

    pub fn is_in_real_causal_dependency(&self, first: &str, second: &str) -> (r: bool)
        requires
            self.wf(),
        ensures
            r == self.real_causal_dependency(first@, second@),
    {
        self.is_in_causal_relation(first, second) && !self.is_in_advanced_ordering_relation(first, second)
    }

    pub fn is_in_redundant_advanced_ordering_relation(&self, first: &str, second: &str) -> (r: bool)
        requires
            self.wf(),
        ensures
            r == self.redundant_advanced_ordering(first@, second@),
    {
        let classes = self.info.all_event_classes();
        let n = classes.len();
        let mut i: usize = 0;
        while i < n
            invariant
                self.wf(),
                classes.wf(),
                n == classes@.len(),
                i <= n,
                forall|c: Seq<char>| #[trigger] classes@.contains(c) <==> is_class(self.classes_log(), c),
                forall|k: int, d: Seq<char>| 0 <= k < i && classes@.contains(d) ==> !(classes@[k] != first@ && d != second@
                    && #[trigger] self.causal(classes@[k], d) && self.advanced_ordering(first@, d)
                    && self.advanced_ordering(classes@[k], second@)),
            decreases n - i,
        {
            let c = classes.get(i);
            let mut j: usize = 0;
            while j < n
                invariant
                    self.wf(),
                    classes.wf(),
                    n == classes@.len(),
                    i < n,
                    forall|c: Seq<char>| #[trigger] classes@.contains(c) <==> is_class(self.classes_log(), c),
                    c@ == classes@[i as int],
                    j <= n,
                    forall|m: int| 0 <= m < j ==> !(c@ != first@ && classes@[m] != second@
                        && #[trigger] self.causal(c@, classes@[m]) && self.advanced_ordering(first@, classes@[m])
                        && self.advanced_ordering(c@, second@)),
                decreases n - j,
            {
                let d = classes.get(j);
                if !crate::text::str_eq(c.as_str(), first) && !crate::text::str_eq(d.as_str(), second) {
                    let c_causal_d = self.is_in_causal_relation(c.as_str(), d.as_str());
                    let first_advanced_d = self.is_in_advanced_ordering_relation(first, d.as_str());
                    let c_advanced_second = self.is_in_advanced_ordering_relation(c.as_str(), second);
                    if c_causal_d && first_advanced_d && c_advanced_second {
                        assert(classes@.contains(c@));
                        assert(classes@.contains(d@));
                        return true;
                    }
                }
                j = j + 1;
            }
            proof {
                assert forall|k: int, d: Seq<char>| 0 <= k < i + 1 && classes@.contains(d) implies !(classes@[k] != first@ && d != second@
                    && #[trigger] self.causal(classes@[k], d) && self.advanced_ordering(first@, d)
                    && self.advanced_ordering(classes@[k], second@)) by {
                    if k == i {
                        let m = choose|m: int| 0 <= m < n && classes@[m] == d;
                        assert(!(c@ != first@ && classes@[m] != second@ && self.causal(c@, classes@[m])
                            && self.advanced_ordering(first@, classes@[m]) && self.advanced_ordering(c@, second@)));
                    }
                }
            }
            i = i + 1;
        }
        proof {
            if self.redundant_advanced_ordering(first@, second@) {
                let (c, d) = choose|c: Seq<char>, d: Seq<char>|
                    is_class(self.classes_log(), c) && is_class(self.classes_log(), d) && c != first@ && d != second@
                        && #[trigger] self.causal(c, d) && #[trigger] self.advanced_ordering(first@, d)
                        && #[trigger] self.advanced_ordering(c, second@);
                assert(classes@.contains(c));
                let k = choose|k: int| 0 <= k < n && classes@[k] == c;
                assert(classes@.contains(d));
                assert(!(classes@[k] != first@ && d != second@ && self.causal(classes@[k], d)
                    && self.advanced_ordering(first@, d) && self.advanced_ordering(classes@[k], second@)));
            }
        }
        false
    }
}

impl<'a> AlphaRelationsProvider for AlphaSharpRelationsProvider<'a> {
    closed spec fn wf(&self) -> bool {
        &&& self.alpha_plus_provider.wf()
        &&& self.info.wf()
    }

    open spec fn direct(&self, a: Seq<char>, b: Seq<char>) -> bool {
        self.plus().direct(a, b)
    }

    open spec fn causal(&self, a: Seq<char>, b: Seq<char>) -> bool {
        self.plus().causal(a, b)
    }

    open spec fn parallel(&self, a: Seq<char>, b: Seq<char>) -> bool {
        self.plus().parallel(a, b)
    }

    open spec fn unrelated(&self, a: Seq<char>, b: Seq<char>) -> bool {
        self.plus().unrelated(a, b)
    }

    fn is_in_causal_relation(&self, first: &str, second: &str) -> (r: bool) {
        self.alpha_plus_provider.is_in_causal_relation(first, second)
    }

    fn is_in_parallel_relation(&self, first: &str, second: &str) -> (r: bool) {
        self.alpha_plus_provider.is_in_parallel_relation(first, second)
    }

    fn is_in_direct_relation(&self, first: &str, second: &str) -> (r: bool) {
        self.alpha_plus_provider.is_in_direct_relation(first, second)
    }

    fn is_in_unrelated_relation(&self, first: &str, second: &str) -> (r: bool) {
        self.alpha_plus_provider.is_in_unrelated_relation(first, second)
    }
}

/// The footprint of the plain alpha algorithm: every ordered pair of classes
/// stands in exactly one of the relations `a` causes `b`, `b` causes `a`,
/// parallel and unrelated, and the last two are symmetric.
pub proof fn lemma_alpha_footprint<'a>(p: &DefaultAlphaRelationsProvider<'a>, a: Seq<char>, b: Seq<char>)
    ensures
        p.causal(a, b) || p.causal(b, a) || p.parallel(a, b) || p.unrelated(a, b),
        !(p.causal(a, b) && p.causal(b, a)),
        !(p.causal(a, b) && p.parallel(a, b)),
        !(p.causal(a, b) && p.unrelated(a, b)),
        !(p.parallel(a, b) && p.unrelated(a, b)),
        p.parallel(a, b) == p.parallel(b, a),
        p.unrelated(a, b) == p.unrelated(b, a),
{
}

/// The alpha+ relations: causality and parallelism exclude each other,
/// parallelism and unrelatedness are symmetric, and two classes in a
/// length-two loop (`a b a` and `b a b` both occur) are causal both ways
/// whenever each directly follows the other.
pub proof fn lemma_alpha_plus_footprint<'a>(p: &AlphaPlusRelationsProvider<'a>, a: Seq<char>, b: Seq<char>)
    ensures
        !(p.causal(a, b) && p.parallel(a, b)),
        !(p.causal(a, b) && p.unrelated(a, b)),
        !(p.parallel(a, b) && p.unrelated(a, b)),
        p.parallel(a, b) == p.parallel(b, a),
        p.unrelated(a, b) == p.unrelated(b, a),
        p.romb(a, b) == p.romb(b, a),
        p.romb(a, b) && p.direct(a, b) && p.direct(b, a) ==> p.causal(a, b) && p.causal(b, a),
{
}

} // verus!
