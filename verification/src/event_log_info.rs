//! Summary information of an event log: its event classes, how often each
//! occurs, which classes start and end traces, and the directly-follows graph.
use vstd::prelude::*;
use crate::class_set::ClassSet;
use crate::count_map::{CountMap, PairCountMap};
use crate::event_log::{EventLog, Trace, filter_log_by_names, without_names};

verus! {

/// How many events of class `c` a trace holds.
pub open spec fn occurrences(trace: Seq<Seq<char>>, c: Seq<char>) -> nat
    decreases trace.len(),
{
    if trace.len() == 0 {
        0
    } else {
        occurrences(trace.drop_last(), c) + if trace.last() == c { 1nat } else { 0nat }
    }
}

/// How many events of class `c` a log holds.
pub open spec fn log_occurrences(log: Seq<Seq<Seq<char>>>, c: Seq<char>) -> nat
    decreases log.len(),
{
    if log.len() == 0 {
        0
    } else {
        log_occurrences(log.drop_last(), c) + occurrences(log.last(), c)
    }
}

/// How many times an event of class `b` directly follows one of class `a` in a trace.
pub open spec fn pair_occurrences(trace: Seq<Seq<char>>, a: Seq<char>, b: Seq<char>) -> nat
    decreases trace.len(),
{
    if trace.len() < 2 {
        0
    } else {
        pair_occurrences(trace.drop_last(), a, b) + if trace[trace.len() - 2] == a && trace.last() == b {
            1nat
        } else {
            0nat
        }
    }
}

/// How many times `b` directly follows `a` over a log.
pub open spec fn log_pair_occurrences(log: Seq<Seq<Seq<char>>>, a: Seq<char>, b: Seq<char>) -> nat
    decreases log.len(),
{
    if log.len() == 0 {
        0
    } else {
        log_pair_occurrences(log.drop_last(), a, b) + pair_occurrences(log.last(), a, b)
    }
}

/// The number of events in a log.
pub open spec fn total_events(log: Seq<Seq<Seq<char>>>) -> nat
    decreases log.len(),
{
    if log.len() == 0 {
        0
    } else {
        total_events(log.drop_last()) + log.last().len()
    }
}

/// `c` is the class of some event of the log.
pub open spec fn is_class(log: Seq<Seq<Seq<char>>>, c: Seq<char>) -> bool {
    exists|t: int, i: int| 0 <= t < log.len() && 0 <= i < log[t].len() && #[trigger] log[t][i] == c
}

/// Some event of class `b` directly follows an event of class `a`.
pub open spec fn directly_follows(log: Seq<Seq<Seq<char>>>, a: Seq<char>, b: Seq<char>) -> bool {
    exists|t: int, i: int|
        0 <= t < log.len() && 0 <= i && i + 1 < log[t].len() && #[trigger] log[t][i] == a && log[t][i + 1] == b
}

/// Some trace starts with an event of class `c`.
pub open spec fn is_start_class(log: Seq<Seq<Seq<char>>>, c: Seq<char>) -> bool {
    exists|t: int| 0 <= t < log.len() && log[t].len() > 0 && #[trigger] log[t][0] == c
}

/// Some trace ends with an event of class `c`.
pub open spec fn is_end_class(log: Seq<Seq<Seq<char>>>, c: Seq<char>) -> bool {
    exists|t: int| 0 <= t < log.len() && log[t].len() > 0 && #[trigger] log[t][log[t].len() - 1] == c
}

proof fn lemma_occurrences_positive(trace: Seq<Seq<char>>, c: Seq<char>)
    ensures
        occurrences(trace, c) > 0 <==> exists|i: int| 0 <= i < trace.len() && #[trigger] trace[i] == c,
    decreases trace.len(),
{
    if trace.len() > 0 {
        lemma_occurrences_positive(trace.drop_last(), c);
        if exists|i: int| 0 <= i < trace.len() && #[trigger] trace[i] == c {
            let i = choose|i: int| 0 <= i < trace.len() && trace[i] == c;
            if i < trace.len() - 1 {
                assert(trace.drop_last()[i] == c);
            }
        }
        if exists|i: int| 0 <= i < trace.drop_last().len() && #[trigger] trace.drop_last()[i] == c {
            let i = choose|i: int| 0 <= i < trace.drop_last().len() && trace.drop_last()[i] == c;
            assert(trace[i] == c);
        }
    }
}

proof fn lemma_log_occurrences_positive(log: Seq<Seq<Seq<char>>>, c: Seq<char>)
    ensures
        log_occurrences(log, c) > 0 <==> is_class(log, c),
    decreases log.len(),
{
    if log.len() > 0 {
        lemma_log_occurrences_positive(log.drop_last(), c);
        lemma_occurrences_positive(log.last(), c);
        if is_class(log, c) {
            let (t, i) = choose|t: int, i: int| 0 <= t < log.len() && 0 <= i < log[t].len() && #[trigger] log[t][i] == c;
            if t < log.len() - 1 {
                assert(log.drop_last()[t][i] == c);
            } else {
                assert(log.last()[i] == c);
            }
        }
        if is_class(log.drop_last(), c) {
            let (t, i) = choose|t: int, i: int|
                0 <= t < log.drop_last().len() && 0 <= i < log.drop_last()[t].len() && #[trigger] log.drop_last()[t][i] == c;
            assert(log[t][i] == c);
        }
        if exists|i: int| 0 <= i < log.last().len() && #[trigger] log.last()[i] == c {
            let i = choose|i: int| 0 <= i < log.last().len() && log.last()[i] == c;
            assert(log[log.len() - 1][i] == c);
        }
    }
}

proof fn lemma_pair_occurrences_positive(trace: Seq<Seq<char>>, a: Seq<char>, b: Seq<char>)
    ensures
        pair_occurrences(trace, a, b) > 0 <==> exists|i: int|
            0 <= i && i + 1 < trace.len() && #[trigger] trace[i] == a && trace[i + 1] == b,
    decreases trace.len(),
{
    if trace.len() >= 2 {
        lemma_pair_occurrences_positive(trace.drop_last(), a, b);
        if exists|i: int| 0 <= i && i + 1 < trace.len() && #[trigger] trace[i] == a && trace[i + 1] == b {
            let i = choose|i: int| 0 <= i && i + 1 < trace.len() && #[trigger] trace[i] == a && trace[i + 1] == b;
            if i + 2 < trace.len() {
                assert(trace.drop_last()[i] == a && trace.drop_last()[i + 1] == b);
            }
        }
        if exists|i: int| 0 <= i && i + 1 < trace.drop_last().len() && #[trigger] trace.drop_last()[i] == a && trace.drop_last()[i + 1] == b {
            let i = choose|i: int|
                0 <= i && i + 1 < trace.drop_last().len() && #[trigger] trace.drop_last()[i] == a && trace.drop_last()[i + 1] == b;
            assert(trace[i] == a && trace[i + 1] == b);
        }
    }
}

proof fn lemma_log_pair_occurrences_positive(log: Seq<Seq<Seq<char>>>, a: Seq<char>, b: Seq<char>)
    ensures
        log_pair_occurrences(log, a, b) > 0 <==> directly_follows(log, a, b),
    decreases log.len(),
{
    if log.len() > 0 {
        lemma_log_pair_occurrences_positive(log.drop_last(), a, b);
        lemma_pair_occurrences_positive(log.last(), a, b);
        if directly_follows(log, a, b) {
            let (t, i) = choose|t: int, i: int|
                0 <= t < log.len() && 0 <= i && i + 1 < log[t].len() && #[trigger] log[t][i] == a && log[t][i + 1] == b;
            if t < log.len() - 1 {
                assert(log.drop_last()[t][i] == a);
            } else {
                assert(log.last()[i] == a && log.last()[i + 1] == b);
            }
        }
        if directly_follows(log.drop_last(), a, b) {
            let (t, i) = choose|t: int, i: int|
                0 <= t < log.drop_last().len() && 0 <= i && i + 1 < log.drop_last()[t].len()
                    && #[trigger] log.drop_last()[t][i] == a && log.drop_last()[t][i + 1] == b;
            assert(log[t][i] == a);
        }
        if exists|i: int| 0 <= i && i + 1 < log.last().len() && #[trigger] log.last()[i] == a && log.last()[i + 1] == b {
            let i = choose|i: int| 0 <= i && i + 1 < log.last().len() && #[trigger] log.last()[i] == a && log.last()[i + 1] == b;
            assert(log[log.len() - 1][i] == a);
        }
    }
}

proof fn lemma_total_prefix(log: Seq<Seq<Seq<char>>>, t: int)
    requires
        0 <= t < log.len(),
    ensures
        total_events(log.take(t)) + log[t].len() <= total_events(log),
    decreases log.len(),
{
    assert(log.take(t + 1).drop_last() =~= log.take(t));
    if t + 1 < log.len() {
        lemma_total_prefix(log.drop_last(), t);
        assert(log.drop_last().take(t) =~= log.take(t));
    } else {
        assert(log.take(t + 1) =~= log);
    }
}

/// The directly-follows graph of a log.
pub struct DfgInfo {
    pairs: PairCountMap,
    log: Ghost<Seq<Seq<Seq<char>>>>,
}

impl DfgInfo {
    /// The log (as class names) that the graph describes.
    pub closed spec fn log(&self) -> Seq<Seq<Seq<char>>> {
        self.log@
    }

    pub closed spec fn wf(&self) -> bool {
        &&& self.pairs.wf()
        &&& forall|a: Seq<char>, b: Seq<char>| #[trigger] self.pairs.count((a, b)) == log_pair_occurrences(self.log@, a, b)
    }

    /// How many times `second` directly follows `first`.
    pub fn get_directly_follows_count(&self, first: &str, second: &str) -> (r: usize)
        requires
            self.wf(),
        ensures
            r == log_pair_occurrences(self.log(), first@, second@),
    {
        self.pairs.get(first, second)
    }

    /// Whether `second` directly follows `first` somewhere in the log.
    pub fn is_in_directly_follows_relation(&self, first: &str, second: &str) -> (r: bool)
        requires
            self.wf(),
        ensures
            r == directly_follows(self.log(), first@, second@),
    {
        proof {
            lemma_log_pair_occurrences_positive(self.log@, first@, second@);
        }
        self.pairs.get(first, second) > 0
    }

    fn collect_neighbours(&self, class: &str, followers: bool) -> (r: ClassSet)
        requires
            self.wf(),
        ensures
            r.wf(),
            followers ==> forall|c: Seq<char>| r@.contains(c) <==> directly_follows(self.log(), class@, c),
            !followers ==> forall|c: Seq<char>| r@.contains(c) <==> directly_follows(self.log(), c, class@),
    {
        let mut r = ClassSet::new();
        let n = self.pairs.pairs_len();
        let mut i: usize = 0;
        proof {
            self.pairs.lemma_pairs();
        }
        while i < n
            invariant
                self.wf(),
                n == self.pairs.pairs().len(),
                i <= n,
                r.wf(),
                forall|k: (Seq<char>, Seq<char>)| self.pairs.pairs().contains(k) <==> self.pairs.count(k) > 0,
                followers ==> forall|c: Seq<char>|
                    r@.contains(c) <==> exists|j: int| 0 <= j < i && #[trigger] self.pairs.pairs()[j] == (class@, c),
                !followers ==> forall|c: Seq<char>|
                    r@.contains(c) <==> exists|j: int| 0 <= j < i && #[trigger] self.pairs.pairs()[j] == (c, class@),
            decreases n - i,
        {
            let (first, second) = self.pairs.pair_at(i);
            let ghost p = self.pairs.pairs()[i as int];
            if followers {
                if crate::text::str_eq(first.as_str(), class) {
                    r.insert(second.clone());
                }
            } else {
                if crate::text::str_eq(second.as_str(), class) {
                    r.insert(first.clone());
                }
            }
            proof {
                if followers {
                    assert forall|c: Seq<char>| r@.contains(c) <==> exists|j: int|
                        0 <= j < i + 1 && #[trigger] self.pairs.pairs()[j] == (class@, c) by {
                        if p == (class@, c) {
                            assert(self.pairs.pairs()[i as int] == (class@, c));
                        }
                        if exists|j: int| 0 <= j < i + 1 && #[trigger] self.pairs.pairs()[j] == (class@, c) {
                            let j = choose|j: int| 0 <= j < i + 1 && #[trigger] self.pairs.pairs()[j] == (class@, c);
                            if j < i {
                            }
                        }
                    }
                } else {
                    assert forall|c: Seq<char>| r@.contains(c) <==> exists|j: int|
                        0 <= j < i + 1 && #[trigger] self.pairs.pairs()[j] == (c, class@) by {
                        if p == (c, class@) {
                            assert(self.pairs.pairs()[i as int] == (c, class@));
                        }
                        if exists|j: int| 0 <= j < i + 1 && #[trigger] self.pairs.pairs()[j] == (c, class@) {
                            let j = choose|j: int| 0 <= j < i + 1 && #[trigger] self.pairs.pairs()[j] == (c, class@);
                            if j < i {
                            }
                        }
                    }
                }
            }
            i = i + 1;
        }
        proof {
            assert forall|c: Seq<char>| #![trigger directly_follows(self.log(), class@, c)]
                followers ==> (r@.contains(c) <==> directly_follows(self.log(), class@, c)) by {
                lemma_log_pair_occurrences_positive(self.log@, class@, c);
                if followers && self.pairs.pairs().contains((class@, c)) {
                    let j = choose|j: int| 0 <= j < n && self.pairs.pairs()[j] == (class@, c);
                    assert(self.pairs.pairs()[j] == (class@, c));
                }
            }
            assert forall|c: Seq<char>| #![trigger directly_follows(self.log(), c, class@)]
                !followers ==> (r@.contains(c) <==> directly_follows(self.log(), c, class@)) by {
                lemma_log_pair_occurrences_positive(self.log@, c, class@);
                if !followers && self.pairs.pairs().contains((c, class@)) {
                    let j = choose|j: int| 0 <= j < n && self.pairs.pairs()[j] == (c, class@);
                    assert(self.pairs.pairs()[j] == (c, class@));
                }
            }
        }
        r
    }

    /// The classes that directly follow `class`; `None` when there are none.
    pub fn get_followed_events(&self, class: &str) -> (r: Option<ClassSet>)
        requires
            self.wf(),
        ensures
            r is None <==> !exists|c: Seq<char>| directly_follows(self.log(), class@, c),
            r matches Some(s) ==> s.wf() && forall|c: Seq<char>| s@.contains(c) <==> directly_follows(self.log(), class@, c),
    {
        let s = self.collect_neighbours(class, true);
        if s.len() == 0 {
            proof {
                if exists|c: Seq<char>| directly_follows(self.log(), class@, c) {
                    let c = choose|c: Seq<char>| directly_follows(self.log(), class@, c);
                    assert(s@.contains(c));
                }
            }
            None
        } else {
            assert(s@.contains(s@[0]));
            assert(directly_follows(self.log(), class@, s@[0]));
            Some(s)
        }
    }

    /// The classes that `class` directly follows; `None` when there are none.
    pub fn get_precedes_events(&self, class: &str) -> (r: Option<ClassSet>)
        requires
            self.wf(),
        ensures
            r is None <==> !exists|c: Seq<char>| directly_follows(self.log(), c, class@),
            r matches Some(s) ==> s.wf() && forall|c: Seq<char>| s@.contains(c) <==> directly_follows(self.log(), c, class@),
    {
        let s = self.collect_neighbours(class, false);
        if s.len() == 0 {
            proof {
                if exists|c: Seq<char>| directly_follows(self.log(), c, class@) {
                    let c = choose|c: Seq<char>| directly_follows(self.log(), c, class@);
                    assert(s@.contains(c));
                }
            }
            None
        } else {
            assert(s@.contains(s@[0]));
            assert(directly_follows(self.log(), s@[0], class@));
            Some(s)
        }
    }
}


/// The log without the events of the classes in `ignored`.
pub open spec fn log_without(log: Seq<Seq<Seq<char>>>, ignored: Seq<Seq<char>>) -> Seq<Seq<Seq<char>>> {
    log.map_values(|t: Seq<Seq<char>>| without_names(t, ignored))
}

proof fn lemma_total_without(log: Seq<Seq<Seq<char>>>, ignored: Seq<Seq<char>>)
    ensures
        total_events(log_without(log, ignored)) <= total_events(log),
    decreases log.len(),
{
    if log.len() > 0 {
        lemma_total_without(log.drop_last(), ignored);
        assert(log_without(log, ignored).drop_last() =~= log_without(log.drop_last(), ignored));
        log.last().lemma_filter_len(|n: Seq<char>| !ignored.contains(n));
    }
}

/// Classes, counts, start and end classes and the directly-follows graph of a log.
pub struct EventLogInfo {
    events: CountMap,
    classes: ClassSet,
    starts: ClassSet,
    ends: ClassSet,
    dfg: DfgInfo,
    events_count: usize,
    traces_count: usize,
    log: Ghost<Seq<Seq<Seq<char>>>>,
}

impl EventLogInfo {
    /// The log (as class names) that the information describes.
    pub closed spec fn log(&self) -> Seq<Seq<Seq<char>>> {
        self.log@
    }

    pub closed spec fn wf(&self) -> bool {
        &&& self.events.wf()
        &&& forall|c: Seq<char>| #[trigger] self.events.count(c) == log_occurrences(self.log@, c)
        &&& self.classes.wf()
        &&& forall|c: Seq<char>| #[trigger] self.classes@.contains(c) <==> is_class(self.log@, c)
        &&& self.starts.wf()
        &&& forall|c: Seq<char>| #[trigger] self.starts@.contains(c) <==> is_start_class(self.log@, c)
        &&& self.ends.wf()
        &&& forall|c: Seq<char>| #[trigger] self.ends@.contains(c) <==> is_end_class(self.log@, c)
        &&& self.dfg.wf()
        &&& self.dfg.log() == self.log@
        &&& self.events_count == total_events(self.log@)
        &&& self.traces_count == self.log@.len()
    }

    /// Gathers the information of a log.
    pub fn create_from(log: &EventLog) -> (r: Self)
        requires
            total_events(log@) < usize::MAX,
        ensures
            r.wf(),
            r.log() == log@,
    {
        let ghost l = log@;
        let traces = log.traces();
        let mut events = CountMap::new();
        let mut pairs = PairCountMap::new();
        let mut starts = ClassSet::new();
        let mut ends = ClassSet::new();
        let mut seen: usize = 0;
        let mut t: usize = 0;
        assert(l.take(0) =~= Seq::<Seq<Seq<char>>>::empty());
        while t < traces.len()
            invariant
                l == log@,
                crate::event_log::traces_view(traces@) == l,
                t <= l.len(),
                total_events(l) < usize::MAX,
                events.wf(),
                pairs.wf(),
                starts.wf(),
                ends.wf(),
                forall|c: Seq<char>| #[trigger] events.count(c) == log_occurrences(l.take(t as int), c),
                forall|a: Seq<char>, b: Seq<char>| #[trigger] pairs.count((a, b)) == log_pair_occurrences(l.take(t as int), a, b),
                seen == total_events(l.take(t as int)),
                forall|c: Seq<char>| #[trigger] events.count(c) <= seen,
                forall|a: Seq<char>, b: Seq<char>| #[trigger] pairs.count((a, b)) <= seen,
                forall|c: Seq<char>| #[trigger] starts@.contains(c) <==> is_start_class(l.take(t as int), c),
                forall|c: Seq<char>| #[trigger] ends@.contains(c) <==> is_end_class(l.take(t as int), c),
            decreases traces.len() - t,
        {
            let trace: &Trace = &traces[t];
            let ghost tr = l[t as int];
            assert(trace@ == tr);
            proof {
                lemma_total_prefix(l, t as int);
            }
            let n = trace.len();
            let mut i: usize = 0;
            assert(tr.take(0) =~= Seq::<Seq<char>>::empty());
            while i < n
                invariant
                    n == tr.len(),
                    trace@ == tr,
                    i <= n,
                    events.wf(),
                    pairs.wf(),
                    forall|c: Seq<char>| #[trigger] events.count(c) == log_occurrences(l.take(t as int), c) + occurrences(tr.take(i as int), c),
                    forall|a: Seq<char>, b: Seq<char>| #[trigger] pairs.count((a, b)) == log_pair_occurrences(l.take(t as int), a, b) + pair_occurrences(tr.take(i as int), a, b),
                    seen == total_events(l.take(t as int)) + i,
                    total_events(l.take(t as int)) + n <= total_events(l),
                    total_events(l) < usize::MAX,
                    forall|c: Seq<char>| #[trigger] events.count(c) <= seen,
                    forall|a: Seq<char>, b: Seq<char>| #[trigger] pairs.count((a, b)) <= seen,
                decreases n - i,
            {
                let name = trace.name_at(i);
                assert(tr.take(i + 1).drop_last() =~= tr.take(i as int));
                assert(tr.take(i + 1).last() == tr[i as int]);
                let ghost ev_before = events;
                let ghost pairs_before = pairs;
                events.increment(name.as_str());
                if i > 0 {
                    let prev = trace.name_at(i - 1);
                    assert(tr.take(i + 1)[i - 1] == tr[i - 1]);
                    pairs.increment(prev.as_str(), name.as_str());
                    assert forall|a: Seq<char>, b: Seq<char>| #[trigger] pairs.count((a, b)) == log_pair_occurrences(
                        l.take(t as int),
                        a,
                        b,
                    ) + pair_occurrences(tr.take(i + 1), a, b) by {
                        assert(pairs.count((a, b)) == pairs_before.count((a, b)) + if (a, b) == (tr[i - 1], tr[i as int]) { 1nat } else { 0nat });
                    }
                } else {
                    assert forall|a: Seq<char>, b: Seq<char>| #[trigger] pairs.count((a, b)) == log_pair_occurrences(
                        l.take(t as int),
                        a,
                        b,
                    ) + pair_occurrences(tr.take(i + 1), a, b) by {
                    }
                }
                assert forall|c: Seq<char>| #[trigger] events.count(c) == log_occurrences(l.take(t as int), c) + occurrences(tr.take(i + 1), c) by {
                    assert(events.count(c) == ev_before.count(c) + if c == tr[i as int] { 1nat } else { 0nat });
                }
                assert forall|c: Seq<char>| #[trigger] events.count(c) <= seen + 1 by {
                    assert(events.count(c) == ev_before.count(c) + if c == tr[i as int] { 1nat } else { 0nat });
                }
                seen = seen + 1;
                i = i + 1;
            }
            assert(tr.take(n as int) =~= tr);
            assert(l.take(t + 1).drop_last() =~= l.take(t as int));
            assert(l.take(t + 1).last() == tr);
            if n > 0 {
                starts.insert(trace.name_at(0).clone());
                ends.insert(trace.name_at(n - 1).clone());
            }
            assert forall|c: Seq<char>| #[trigger] starts@.contains(c) <==> is_start_class(l.take(t + 1), c) by {
                if is_start_class(l.take(t + 1), c) {
                    let k = choose|k: int| 0 <= k < l.take(t + 1).len() && l.take(t + 1)[k].len() > 0 && #[trigger] l.take(t + 1)[k][0] == c;
                    if k < t {
                        assert(l.take(t as int)[k][0] == c);
                    }
                }
                if is_start_class(l.take(t as int), c) {
                    let k = choose|k: int| 0 <= k < l.take(t as int).len() && l.take(t as int)[k].len() > 0 && #[trigger] l.take(t as int)[k][0] == c;
                    assert(l.take(t + 1)[k][0] == c);
                }
                if n > 0 && c == tr[0] {
                    assert(l.take(t + 1)[t as int][0] == c);
                }
            }
            assert forall|c: Seq<char>| #[trigger] ends@.contains(c) <==> is_end_class(l.take(t + 1), c) by {
                if is_end_class(l.take(t + 1), c) {
                    let k = choose|k: int| 0 <= k < l.take(t + 1).len() && l.take(t + 1)[k].len() > 0 && #[trigger] l.take(t + 1)[k][l.take(t + 1)[k].len() - 1] == c;
                    if k < t {
                        assert(l.take(t as int)[k][l.take(t as int)[k].len() - 1] == c);
                    }
                }
                if is_end_class(l.take(t as int), c) {
                    let k = choose|k: int| 0 <= k < l.take(t as int).len() && l.take(t as int)[k].len() > 0 && #[trigger] l.take(t as int)[k][l.take(t as int)[k].len() - 1] == c;
                    assert(l.take(t + 1)[k][l.take(t + 1)[k].len() - 1] == c);
                }
                if n > 0 && c == tr[n - 1] {
                    assert(l.take(t + 1)[t as int][l.take(t + 1)[t as int].len() - 1] == c);
                }
            }
            t = t + 1;
        }
        assert(l.take(l.len() as int) =~= l);
        let mut classes = ClassSet::new();
        let k = events.keys_len();
        let mut j: usize = 0;
        proof {
            events.lemma_keys();
        }
        while j < k
            invariant
                k == events.keys().len(),
                j <= k,
                events.wf(),
                classes.wf(),
                forall|c: Seq<char>| events.keys().contains(c) <==> events.count(c) > 0,
                forall|c: Seq<char>| classes@.contains(c) <==> exists|m: int| 0 <= m < j && #[trigger] events.keys()[m] == c,
            decreases k - j,
        {
            classes.insert(events.key_at(j).clone());
            assert forall|c: Seq<char>| classes@.contains(c) <==> exists|m: int| 0 <= m < j + 1 && #[trigger] events.keys()[m] == c by {
                if c == events.keys()[j as int] {
                    assert(events.keys()[j as int] == c);
                }
                if exists|m: int| 0 <= m < j + 1 && #[trigger] events.keys()[m] == c {
                    let m = choose|m: int| 0 <= m < j + 1 && #[trigger] events.keys()[m] == c;
                    if m < j {
                    }
                }
            }
            j = j + 1;
        }
        assert forall|c: Seq<char>| #[trigger] classes@.contains(c) <==> is_class(l, c) by {
            lemma_log_occurrences_positive(l, c);
            if events.keys().contains(c) {
                let m = choose|m: int| 0 <= m < k && events.keys()[m] == c;
                assert(events.keys()[m] == c);
            }
        }
        let dfg = DfgInfo { pairs, log: Ghost(l) };
        EventLogInfo {
            events,
            classes,
            starts,
            ends,
            dfg,
            events_count: seen,
            traces_count: traces.len(),
            log: Ghost(l),
        }
    }

    /// Gathers the information of a log as if the events of the classes in
    /// `ignored` were not there.
    pub fn create_from_ignoring(log: &EventLog, ignored: &ClassSet) -> (r: Self)
        requires
            total_events(log@) < usize::MAX,
            ignored.wf(),
        ensures
            r.wf(),
            r.log() == log_without(log@, ignored@),
    {
        let mut filtered = log.clone_log();
        filter_log_by_names(&mut filtered, ignored);
        assert(filtered@ =~= log_without(log@, ignored@));
        proof {
            lemma_total_without(log@, ignored@);
        }
        Self::create_from(&filtered)
    }

    /// All event classes of the log, in ascending order.
    pub fn all_event_classes(&self) -> (r: &ClassSet)
        requires
            self.wf(),
        ensures
            r.wf(),
            r@ == self.all_event_classes_view(),
            forall|c: Seq<char>| #[trigger] r@.contains(c) <==> is_class(self.log(), c),
    {
        &self.classes
    }

    /// The classes that start some trace.
    pub fn start_event_classes(&self) -> (r: &ClassSet)
        requires
            self.wf(),
        ensures
            r.wf(),
            r@ == self.start_event_classes_view(),
            forall|c: Seq<char>| #[trigger] r@.contains(c) <==> is_start_class(self.log(), c),
    {
        &self.starts
    }

    /// The classes that end some trace.
    pub fn end_event_classes(&self) -> (r: &ClassSet)
        requires
            self.wf(),
        ensures
            r.wf(),
            r@ == self.end_event_classes_view(),
            forall|c: Seq<char>| #[trigger] r@.contains(c) <==> is_end_class(self.log(), c),
    {
        &self.ends
    }

    /// How many events of class `class` the log holds.
    pub fn event_count(&self, class: &str) -> (r: usize)
        requires
            self.wf(),
        ensures
            r == log_occurrences(self.log(), class@),
    {
        self.events.get(class)
    }

    pub fn events_count(&self) -> (r: usize)
        requires
            self.wf(),
        ensures
            r == total_events(self.log()),
    {
        self.events_count
    }

    pub fn traces_count(&self) -> (r: usize)
        requires
            self.wf(),
        ensures
            r == self.log().len(),
    {
        self.traces_count
    }

    pub fn event_classes_count(&self) -> (r: usize)
        requires
            self.wf(),
        ensures
            r == self.all_event_classes_view().len(),
    {
        self.classes.len()
    }

    /// The classes in ascending order.
    pub closed spec fn all_event_classes_view(&self) -> Seq<Seq<char>> {
        self.classes@
    }

    /// The start classes in ascending order.
    pub closed spec fn start_event_classes_view(&self) -> Seq<Seq<char>> {
        self.starts@
    }

    /// The end classes in ascending order.
    pub closed spec fn end_event_classes_view(&self) -> Seq<Seq<char>> {
        self.ends@
    }

    pub fn dfg_info(&self) -> (r: &DfgInfo)
        requires
            self.wf(),
        ensures
            r.wf(),
            r.log() == self.log(),
    {
        &self.dfg
    }
}

/// The successions of a trace: each event beside the one right after it.
pub open spec fn successions(trace: Seq<Seq<char>>) -> Seq<(Seq<char>, Seq<char>)> {
    Seq::new(if trace.len() == 0 { 0 } else { (trace.len() - 1) as nat }, |i: int| (trace[i], trace[i + 1]))
}

/// The directly-follows count of `(a, b)` in a trace is the number of
/// positions at which `a` is directly followed by `b`.
pub proof fn lemma_pair_count_counts_every_succession(trace: Seq<Seq<char>>, a: Seq<char>, b: Seq<char>)
    ensures
        pair_occurrences(trace, a, b) == successions(trace).filter(|p: (Seq<char>, Seq<char>)| p == (a, b)).len(),
    decreases trace.len(),
{
    let is_ab = |p: (Seq<char>, Seq<char>)| p == (a, b);
    let z = successions(trace);
    if trace.len() < 2 {
        reveal(Seq::filter);
        assert(z.len() == 0);
        assert(z.filter(is_ab) =~= Seq::<(Seq<char>, Seq<char>)>::empty());
    } else {
        let t0 = trace.drop_last();
        lemma_pair_count_counts_every_succession(t0, a, b);
        let z0 = successions(t0);
        assert(z =~= z0.push((trace[trace.len() - 2], trace.last())));
        z0.lemma_filter_push((trace[trace.len() - 2], trace.last()), is_ab);
    }
}

/// Counting is additive: the successions of two stretches of events, put
/// one after the other, are all counted (and one more may arise where they meet).
pub proof fn lemma_pair_count_of_concatenation(s: Seq<Seq<char>>, s2: Seq<Seq<char>>, a: Seq<char>, b: Seq<char>)
    ensures
        pair_occurrences(s + s2, a, b) >= pair_occurrences(s, a, b) + pair_occurrences(s2, a, b),
        pair_occurrences(s + s2, a, b) <= pair_occurrences(s, a, b) + pair_occurrences(s2, a, b) + 1,
    decreases s2.len(),
{
    if s2.len() == 0 {
        assert(s + s2 =~= s);
    } else {
        let s20 = s2.drop_last();
        lemma_pair_count_of_concatenation(s, s20, a, b);
        assert((s + s2).drop_last() =~= s + s20);
        if s2.len() >= 2 {
            assert((s + s2)[(s + s2).len() - 2] == s2[s2.len() - 2]);
        } else {
            assert(pair_occurrences(s2, a, b) == 0);
            assert(s20.len() == 0);
            assert(s + s20 =~= s);
        }
    }
}

/// Over a log, the count of `(a, b)` adds up the counts of its traces: the
/// count of two logs put together is the sum of their counts, and the count
/// of one trace is that trace's count.
pub proof fn lemma_log_pair_count_adds_up(log: Seq<Seq<Seq<char>>>, log2: Seq<Seq<Seq<char>>>, a: Seq<char>, b: Seq<char>)
    ensures
        log_pair_occurrences(log + log2, a, b) == log_pair_occurrences(log, a, b) + log_pair_occurrences(log2, a, b),
        forall|t: Seq<Seq<char>>| #[trigger] log_pair_occurrences(seq![t], a, b) == pair_occurrences(t, a, b),
    decreases log2.len(),
{
    assert forall|t: Seq<Seq<char>>| #[trigger] log_pair_occurrences(seq![t], a, b) == pair_occurrences(t, a, b) by {
        assert(seq![t].drop_last() =~= Seq::<Seq<Seq<char>>>::empty());
        assert(log_pair_occurrences(seq![t].drop_last(), a, b) == 0);
        assert(seq![t].last() == t);
    }
    if log2.len() == 0 {
        assert(log + log2 =~= log);
    } else {
        lemma_log_pair_count_adds_up(log, log2.drop_last(), a, b);
        assert((log + log2).drop_last() =~= log + log2.drop_last());
    }
}

/// The count of class `c` in a trace is the number of its events of class `c`.
pub proof fn lemma_class_count_counts_every_event(trace: Seq<Seq<char>>, c: Seq<char>)
    ensures
        occurrences(trace, c) == trace.filter(|e: Seq<char>| e == c).len(),
    decreases trace.len(),
{
    let is_c = |e: Seq<char>| e == c;
    if trace.len() == 0 {
        reveal(Seq::filter);
        assert(trace.filter(is_c) =~= Seq::<Seq<char>>::empty());
    } else {
        let t0 = trace.drop_last();
        lemma_class_count_counts_every_event(t0, c);
        assert(trace =~= t0.push(trace.last()));
        t0.lemma_filter_push(trace.last(), is_c);
    }
}

/// Over a log, class counts and event totals add up over its traces: the
/// counts of two logs put together are the sums of their counts, and a log
/// of one trace counts that trace's events.
pub proof fn lemma_log_counts_add_up(log: Seq<Seq<Seq<char>>>, log2: Seq<Seq<Seq<char>>>, c: Seq<char>)
    ensures
        log_occurrences(log + log2, c) == log_occurrences(log, c) + log_occurrences(log2, c),
        total_events(log + log2) == total_events(log) + total_events(log2),
        forall|t: Seq<Seq<char>>| #[trigger] log_occurrences(seq![t], c) == occurrences(t, c),
        forall|t: Seq<Seq<char>>| #[trigger] total_events(seq![t]) == t.len(),
    decreases log2.len(),
{
    assert forall|t: Seq<Seq<char>>| #[trigger] log_occurrences(seq![t], c) == occurrences(t, c) by {
        assert(seq![t].drop_last() =~= Seq::<Seq<Seq<char>>>::empty());
        assert(log_occurrences(seq![t].drop_last(), c) == 0);
        assert(seq![t].last() == t);
    }
    assert forall|t: Seq<Seq<char>>| #[trigger] total_events(seq![t]) == t.len() by {
        assert(seq![t].drop_last() =~= Seq::<Seq<Seq<char>>>::empty());
        assert(total_events(seq![t].drop_last()) == 0);
        assert(seq![t].last() == t);
    }
    if log2.len() == 0 {
        assert(log + log2 =~= log);
    } else {
        lemma_log_counts_add_up(log, log2.drop_last(), c);
        assert((log + log2).drop_last() =~= log + log2.drop_last());
    }
}

} // verus!
