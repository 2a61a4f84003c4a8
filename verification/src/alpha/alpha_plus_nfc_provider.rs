//! The relations of alpha++ (non-free-choice constructs): alpha+ succession,
//! causality that also holds on short loops, triangles of common causes and
//! effects, and the indirect dependencies that need extra places.
use vstd::prelude::*;
use crate::alpha::provider::{AlphaPlusRelationsProvider, AlphaRelationsProvider, all_traces_at_least, triangle};
use crate::event_log::{EventLog, Trace};
use crate::event_log_info::{EventLogInfo, directly_follows, is_class, log_occurrences};
use crate::petri_net::{PetriNet, Transition, touches};
use crate::text::str_eq;

verus! {

pub struct AlphaPlusNfcRelationsProvider<'a> {
    alpha_plus_provider: AlphaPlusRelationsProvider<'a>,
    info: &'a EventLogInfo,
    log: &'a EventLog,
}

impl<'a> AlphaPlusNfcRelationsProvider<'a> {
    pub closed spec fn wf(&self) -> bool {
        &&& self.alpha_plus_provider.wf()
        &&& self.info.wf()
        &&& self.alpha_plus_provider.dfg_log() == self.info.log()
        &&& self.alpha_plus_provider.triangle_log() == self.log@
    }

    /// The log whose information gives classes, counts and succession.
    pub closed spec fn info_log(&self) -> Seq<Seq<Seq<char>>> {
        self.info.log()
    }

    /// The log that is scanned for patterns.
    pub closed spec fn log(&self) -> Seq<Seq<Seq<char>>> {
        self.log@
    }

    pub open spec fn direct(&self, a: Seq<char>, b: Seq<char>) -> bool {
        directly_follows(self.info_log(), a, b)
    }

    pub open spec fn triangle(&self, a: Seq<char>, b: Seq<char>) -> bool {
        triangle(self.log(), a, b)
    }

    pub open spec fn causal(&self, a: Seq<char>, b: Seq<char>) -> bool {
        self.direct(a, b) && (!self.direct(b, a) || self.triangle(a, b) || self.triangle(b, a))
    }

    pub open spec fn unrelated(&self, a: Seq<char>, b: Seq<char>) -> bool {
        !self.direct(a, b) && !self.direct(b, a)
    }

    pub open spec fn parallel(&self, a: Seq<char>, b: Seq<char>) -> bool {
        self.direct(a, b) && self.direct(b, a) && !(self.triangle(a, b) || self.triangle(b, a))
    }

    /// `a` and `b` are unrelated and have a common cause.
    pub open spec fn left_triangle(&self, a: Seq<char>, b: Seq<char>) -> bool {
        self.unrelated(a, b) && exists|c: Seq<char>| is_class(self.info_log(), c) && #[trigger] self.causal(c, a) && self.causal(c, b)
    }

    /// `a` and `b` are unrelated and have a common effect.
    pub open spec fn right_triangle(&self, a: Seq<char>, b: Seq<char>) -> bool {
        self.unrelated(a, b) && exists|c: Seq<char>| is_class(self.info_log(), c) && #[trigger] self.causal(a, c) && self.causal(b, c)
    }

    /// `x` is a class of the information's log.
    pub open spec fn counted(&self, x: Seq<char>) -> bool {
        log_occurrences(self.info_log(), x) > 0
    }

    /// Between positions `k` (included) and `i` (excluded) of `tr` some event
    /// is counted, and no counted event forms a triangle with `a`.
    pub open spec fn window_ok(&self, tr: Seq<Seq<char>>, k: int, i: int, a: Seq<char>) -> bool {
        &&& exists|j: int| k <= j < i && #[trigger] self.counted(tr[j])
        &&& forall|j: int| k <= j < i && #[trigger] self.counted(tr[j]) ==> !(self.left_triangle(tr[j], a) || self.right_triangle(tr[j], a))
    }

    /// `tr` has `a` at `k`, `b` (not `a`) at `i`, no `a` in between, and a
    /// suitable window from `k` to `i`.
    pub open spec fn double_arrow_at(&self, tr: Seq<Seq<char>>, k: int, i: int, a: Seq<char>, b: Seq<char>) -> bool {
        &&& 0 <= k < i < tr.len()
        &&& tr[k] == a
        &&& tr[i] == b
        &&& tr[i] != a
        &&& forall|m: int| k < m < i ==> #[trigger] tr[m] != a
        &&& self.window_ok(tr, k, i, a)
    }

    /// `b` does not directly follow `a`, but follows it indirectly in some trace.
    pub open spec fn right_double_arrow(&self, a: Seq<char>, b: Seq<char>) -> bool {
        !self.direct(a, b) && exists|t: int, k: int, i: int| 0 <= t < self.log().len() && #[trigger] self.double_arrow_at(self.log()[t], k, i, a, b)
    }

    pub open spec fn concave(&self, a: Seq<char>, b: Seq<char>) -> bool {
        self.causal(a, b) || self.right_double_arrow(a, b)
    }

    pub fn new(info: &'a EventLogInfo, log: &'a EventLog) -> (r: Self)
        requires
            info.wf(),
            all_traces_at_least(log@, 2),
        ensures
            r.wf(),
            r.info_log() == info.log(),
            r.log() == log@,
    {
        AlphaPlusNfcRelationsProvider { alpha_plus_provider: AlphaPlusRelationsProvider::new(info.dfg_info(), log), info, log }
    }

    pub fn is_in_triangle_relation(&self, first: &str, second: &str) -> (r: bool)
        requires
            self.wf(),
        ensures
            r == self.triangle(first@, second@),
    {
        self.alpha_plus_provider.is_in_triangle_relation(first, second)
    }

    pub fn is_in_direct_relation(&self, first: &str, second: &str) -> (r: bool)
        requires
            self.wf(),
        ensures
            r == self.direct(first@, second@),
    {
        self.alpha_plus_provider.is_in_direct_relation(first, second)
    }

    pub fn is_in_causal_relation(&self, first: &str, second: &str) -> (r: bool)
        requires
            self.wf(),
        ensures
            r == self.causal(first@, second@),
    {
        self.alpha_plus_provider.is_in_direct_relation(first, second) && (!self.alpha_plus_provider.is_in_direct_relation(
            second,
            first,
        ) || self.is_in_triangle_relation(first, second) || self.is_in_triangle_relation(second, first))
    }

    pub fn is_in_unrelated_relation(&self, first: &str, second: &str) -> (r: bool)
        requires
            self.wf(),
        ensures
            r == self.unrelated(first@, second@),
    {
        self.alpha_plus_provider.is_in_unrelated_relation(first, second)
    }

    pub fn is_in_parallel_relation(&self, first: &str, second: &str) -> (r: bool)
        requires
            self.wf(),
        ensures
            r == self.parallel(first@, second@),
    {
        self.is_in_direct_relation(first, second) && self.is_in_direct_relation(second, first) && !(
        self.is_in_triangle_relation(first, second) || self.is_in_triangle_relation(second, first))
    }

    pub fn is_in_left_triangle_relation(&self, first: &str, second: &str) -> (r: bool)
        requires
            self.wf(),
        ensures
            r == self.left_triangle(first@, second@),
    {
        if !self.is_in_unrelated_relation(first, second) {
            return false;
        }
        let classes = self.info.all_event_classes();
        let mut i: usize = 0;
        while i < classes.len()
            invariant
                self.wf(),
                forall|c: Seq<char>| #[trigger] classes@.contains(c) <==> is_class(self.info_log(), c),
                self.unrelated(first@, second@),
                i <= classes@.len(),
                forall|k: int| 0 <= k < i ==> !(self.causal(#[trigger] classes@[k], first@) && self.causal(classes@[k], second@)),
            decreases classes@.len() - i,
        {
            let class = classes.get(i);
            if self.is_in_causal_relation(class.as_str(), first) && self.is_in_causal_relation(class.as_str(), second) {
                assert(classes@.contains(class@));
                return true;
            }
            i = i + 1;
        }
        proof {
            assert forall|c: Seq<char>| is_class(self.info_log(), c) implies !(#[trigger] self.causal(c, first@) && self.causal(c, second@)) by {
                assert(classes@.contains(c));
                let k = choose|k: int| 0 <= k < classes@.len() && classes@[k] == c;
            }
        }
        false
    }

    pub fn is_in_right_triangle_relation(&self, first: &str, second: &str) -> (r: bool)
        requires
            self.wf(),
        ensures
            r == self.right_triangle(first@, second@),
    {
        if !self.is_in_unrelated_relation(first, second) {
            return false;
        }
        let classes = self.info.all_event_classes();
        let mut i: usize = 0;
        while i < classes.len()
            invariant
                self.wf(),
                forall|c: Seq<char>| #[trigger] classes@.contains(c) <==> is_class(self.info_log(), c),
                self.unrelated(first@, second@),
                i <= classes@.len(),
                forall|k: int| 0 <= k < i ==> !(self.causal(first@, #[trigger] classes@[k]) && self.causal(second@, classes@[k])),
            decreases classes@.len() - i,
        {
            let class = classes.get(i);
            if self.is_in_causal_relation(first, class.as_str()) && self.is_in_causal_relation(second, class.as_str()) {
                assert(classes@.contains(class@));
                return true;
            }
            i = i + 1;
        }
        proof {
            assert forall|c: Seq<char>| is_class(self.info_log(), c) implies !(#[trigger] self.causal(first@, c) && self.causal(second@, c)) by {
                assert(classes@.contains(c));
                let k = choose|k: int| 0 <= k < classes@.len() && classes@[k] == c;
            }
        }
        false
    }

    /// Whether the window of `trace` from `k` to `i` is suitable for `first`.
    fn window_suitable(&self, trace: &Trace, k: usize, i: usize, first: &str) -> (r: bool)
        requires
            self.wf(),
            k < i <= trace@.len(),
        ensures
            r == self.window_ok(trace@, k as int, i as int, first@),
    {
        let ghost tr = trace@;
        let mut any_counted = false;
        let mut j: usize = k;
        while j < i
            invariant
                self.wf(),
                tr == trace@,
                k <= j <= i <= tr.len(),
                any_counted == exists|q: int| k <= q < j && #[trigger] self.counted(tr[q]),
                forall|q: int| k <= q < j && #[trigger] self.counted(tr[q]) ==> !(self.left_triangle(tr[q], first@)
                    || self.right_triangle(tr[q], first@)),
            decreases i - j,
        {
            let name = trace.name_at(j);
            if self.info.event_count(name.as_str()) > 0 {
                if self.is_in_left_triangle_relation(name.as_str(), first) || self.is_in_right_triangle_relation(name.as_str(), first) {
                    assert(self.counted(tr[j as int]));
                    return false;
                }
                any_counted = true;
                assert(self.counted(tr[j as int]));
            }
            j = j + 1;
        }
        any_counted
    }

    /// Whether `second` follows `first` indirectly, with a suitable window, in `trace`.
    fn trace_has_double_arrow(&self, trace: &Trace, first: &str, second: &str) -> (r: bool)
        requires
            self.wf(),
        ensures
            r == exists|k: int, i: int| #[trigger] self.double_arrow_at(trace@, k, i, first@, second@),
    {
        let ghost tr = trace@;
        let ghost a = first@;
        let ghost b = second@;
        let n = trace.len();
        let mut last: Option<usize> = None;
        let mut i: usize = 0;
        while i < n
            invariant
                self.wf(),
                tr == trace@,
                a == first@,
                b == second@,
                n == tr.len(),
                i <= n,
                match last {
                    Some(k) => k < i && tr[k as int] == a && forall|m: int| k < m < i ==> #[trigger] tr[m] != a,
                    None => forall|m: int| 0 <= m < i ==> #[trigger] tr[m] != a,
                },
                forall|k: int, q: int| q < i ==> !#[trigger] self.double_arrow_at(tr, k, q, a, b),
            decreases n - i,
        {
            let name = trace.name_at(i);
            assert(name@ == tr[i as int]);
            let ghost old_last = last;
            if str_eq(name.as_str(), first) {
                last = Some(i);
                assert(tr[i as int] == a);
                assert forall|k: int, q: int| q < i + 1 implies !#[trigger] self.double_arrow_at(tr, k, q, a, b) by {
                    if q == i && self.double_arrow_at(tr, k, q, a, b) {
                        assert(tr[q] != a);
                    }
                }
            } else {
                if str_eq(name.as_str(), second) {
                    match last {
                        Some(k) => {
                            if self.window_suitable(trace, k, i, first) {
                                assert(self.double_arrow_at(tr, k as int, i as int, a, b));
                                return true;
                            }
                        },
                        None => {},
                    }
                }
                assert(tr[i as int] != a);
                assert forall|k2: int, q: int| q < i + 1 implies !#[trigger] self.double_arrow_at(tr, k2, q, a, b) by {
                    if q == i && self.double_arrow_at(tr, k2, q, a, b) {
                        assert(tr[k2] == a);
                        match last {
                            Some(k) => {
                                if k2 < k {
                                    assert(tr[k as int] != a);
                                } else if k2 > k {
                                    assert(tr[k2] != a);
                                }
                            },
                            None => {
                                assert(tr[k2] != a);
                            },
                        }
                    }
                }
            }
            i = i + 1;
        }
        proof {
            assert forall|k: int, q: int| !#[trigger] self.double_arrow_at(tr, k, q, a, b) by {
                if self.double_arrow_at(tr, k, q, a, b) {
                    assert(q < n);
                }
            }
        }
        false
    }

    pub fn is_in_right_double_arrow_relation(&self, first: &str, second: &str) -> (r: bool)
        requires
            self.wf(),
        ensures
            r == self.right_double_arrow(first@, second@),
    {
        if self.is_in_direct_relation(first, second) {
            return false;
        }
        let traces = self.log.traces();
        let ghost l = self.log();
        let mut t: usize = 0;
        while t < traces.len()
            invariant
                self.wf(),
                l == self.log(),
                crate::event_log::traces_view(traces@) == l,
                !self.direct(first@, second@),
                t <= l.len(),
                forall|u: int, k: int, i: int| 0 <= u < t ==> !#[trigger] self.double_arrow_at(l[u], k, i, first@, second@),
            decreases traces.len() - t,
        {
            let trace = &traces[t];
            assert(trace@ == l[t as int]);
            if self.trace_has_double_arrow(trace, first, second) {
                let ghost (k, i) = choose|k: int, i: int| #[trigger] self.double_arrow_at(trace@, k, i, first@, second@);
                assert(self.double_arrow_at(l[t as int], k, i, first@, second@));
                return true;
            }
            t = t + 1;
        }
        false
    }

    pub fn is_in_concave_arrow_relation(&self, first: &str, second: &str) -> (r: bool)
        requires
            self.wf(),
        ensures
            r == self.concave(first@, second@),
    {
        self.is_in_causal_relation(first, second) || self.is_in_right_double_arrow_relation(first, second)
    }

    /// Some transition of `net` named `a` has an arc into place `p`.
    pub open spec fn in_preset(net: PetriNet, p: u64, a: Seq<char>) -> bool {
        exists|id: u64| net.transitions_map().dom().contains(id) && touches(net.transitions_map()[id].outgoing, p)
            && #[trigger] net.transitions_map()[id].name == a
    }

    /// Some transition of `net` named `b` has an arc out of place `p`.
    pub open spec fn in_postset(net: PetriNet, p: u64, b: Seq<char>) -> bool {
        exists|id: u64| net.transitions_map().dom().contains(id) && touches(net.transitions_map()[id].incoming, p)
            && #[trigger] net.transitions_map()[id].name == b
    }

    /// The places `p1` and `p2` witness the w1 relation of `a` and `b`:
    /// `a` feeds `p1` but not `p2`, `p2` feeds `b`, and nothing feeding `p2`
    /// is in a concave-arrow or parallel relation with `a`.
    pub open spec fn w1_places(&self, net: PetriNet, p1: u64, p2: u64, a: Seq<char>, b: Seq<char>) -> bool {
        &&& p1 != p2
        &&& Self::in_preset(net, p1, a)
        &&& !Self::in_preset(net, p2, a)
        &&& Self::in_postset(net, p2, b)
        &&& forall|id: u64| net.transitions_map().dom().contains(id) && #[trigger] touches(net.transitions_map()[id].outgoing, p2)
            ==> !(self.concave(net.transitions_map()[id].name, a) || self.parallel(net.transitions_map()[id].name, a))
    }

    /// The transition `tid` is fed by places `p1` and `p2` that witness w1.
    pub open spec fn w1_arcs(&self, net: PetriNet, tid: u64, p1: u64, p2: u64, a: Seq<char>, b: Seq<char>) -> bool {
        &&& touches(net.transitions_map()[tid].incoming, p1)
        &&& touches(net.transitions_map()[tid].incoming, p2)
        &&& self.w1_places(net, p1, p2, a, b)
    }

    /// The transition that `net` has for class `c` is fed by two places that witness w1.
    pub open spec fn w1_at_class(&self, net: PetriNet, c: Seq<char>, a: Seq<char>, b: Seq<char>) -> bool {
        &&& net.transition_named(c) is Some
        &&& exists|p1: u64, p2: u64| #[trigger] self.w1_arcs(net, net.transition_named(c)->0, p1, p2, a, b)
    }

    /// `b` does not directly follow `a`, and for some class the w1 pattern
    /// of `a` and `b` is found around its transition in `net`.
    pub open spec fn w1(&self, a: Seq<char>, b: Seq<char>, net: PetriNet) -> bool {
        !self.direct(a, b) && exists|c: Seq<char>| is_class(self.info_log(), c) && #[trigger] self.w1_at_class(net, c, a, b)
    }

    /// Whether one of `transitions` is named `name`.
    fn any_named(transitions: &Vec<&Transition>, name: &str) -> (r: bool)
        ensures
            r == exists|i: int| 0 <= i < transitions@.len() && #[trigger] transitions@[i]@.name == name@,
    {
        let mut i: usize = 0;
        while i < transitions.len()
            invariant
                i <= transitions@.len(),
                forall|k: int| 0 <= k < i ==> #[trigger] transitions@[k]@.name != name@,
            decreases transitions.len() - i,
        {
            if str_eq(transitions[i].name().as_str(), name) {
                return true;
            }
            i = i + 1;
        }
        false
    }

    fn w1_places_hold(&self, net: &PetriNet, p1: u64, p2: u64, first: &str, second: &str) -> (r: bool)
        requires
            self.wf(),
            net.wf(),
        ensures
            r == self.w1_places(*net, p1, p2, first@, second@),
    {
        if p1 == p2 {
            return false;
        }
        let first_preset = net.get_incoming_transitions(&p1);
        let second_preset = net.get_incoming_transitions(&p2);
        let in_first = Self::any_named(&first_preset, first);
        proof {
            if in_first {
                let i = choose|i: int| 0 <= i < first_preset@.len() && #[trigger] first_preset@[i]@.name == first@;
                assert(net.transitions_map()[first_preset@[i]@.id].name == first@);
            }
            if Self::in_preset(*net, p1, first@) {
                let id = choose|id: u64| net.transitions_map().dom().contains(id) && touches(net.transitions_map()[id].outgoing, p1)
                    && #[trigger] net.transitions_map()[id].name == first@;
                let i = choose|i: int| 0 <= i < first_preset@.len() && #[trigger] first_preset@[i]@.id == id;
                assert(first_preset@[i]@.name == first@);
            }
        }
        if !in_first {
            return false;
        }
        let in_second = Self::any_named(&second_preset, first);
        proof {
            if in_second {
                let i = choose|i: int| 0 <= i < second_preset@.len() && #[trigger] second_preset@[i]@.name == first@;
                assert(net.transitions_map()[second_preset@[i]@.id].name == first@);
            }
            if Self::in_preset(*net, p2, first@) {
                let id = choose|id: u64| net.transitions_map().dom().contains(id) && touches(net.transitions_map()[id].outgoing, p2)
                    && #[trigger] net.transitions_map()[id].name == first@;
                let i = choose|i: int| 0 <= i < second_preset@.len() && #[trigger] second_preset@[i]@.id == id;
                assert(second_preset@[i]@.name == first@);
            }
        }
        if in_second {
            return false;
        }
        let second_postset = net.get_outgoing_transitions(&p2);
        let out_second = Self::any_named(&second_postset, second);
        proof {
            if out_second {
                let i = choose|i: int| 0 <= i < second_postset@.len() && #[trigger] second_postset@[i]@.name == second@;
                assert(net.transitions_map()[second_postset@[i]@.id].name == second@);
            }
            if Self::in_postset(*net, p2, second@) {
                let id = choose|id: u64| net.transitions_map().dom().contains(id) && touches(net.transitions_map()[id].incoming, p2)
                    && #[trigger] net.transitions_map()[id].name == second@;
                let i = choose|i: int| 0 <= i < second_postset@.len() && #[trigger] second_postset@[i]@.id == id;
                assert(second_postset@[i]@.name == second@);
            }
        }
        if !out_second {
            return false;
        }
        let mut k: usize = 0;
        while k < second_preset.len()
            invariant
                self.wf(),
                net.wf(),
                k <= second_preset@.len(),
                forall|q: int| 0 <= q < second_preset@.len() ==> net.transitions_map().dom().contains(#[trigger] second_preset@[q]@.id)
                    && net.transitions_map()[second_preset@[q]@.id] == second_preset@[q]@ && touches(second_preset@[q]@.outgoing, p2),
                forall|q: int| 0 <= q < k ==> !(self.concave((#[trigger] second_preset@[q])@.name, first@)
                    || self.parallel(second_preset@[q]@.name, first@)),
            decreases second_preset@.len() - k,
        {
            let name = second_preset[k].name();
            if self.is_in_concave_arrow_relation(name.as_str(), first) || self.is_in_parallel_relation(name.as_str(), first) {
                assert(net.transitions_map().dom().contains(second_preset@[k as int]@.id));
                assert(touches(net.transitions_map()[second_preset@[k as int]@.id].outgoing, p2));
                return false;
            }
            k = k + 1;
        }
        proof {
            assert forall|id: u64| net.transitions_map().dom().contains(id) && #[trigger] touches(net.transitions_map()[id].outgoing, p2)
                implies !(self.concave(net.transitions_map()[id].name, first@) || self.parallel(net.transitions_map()[id].name, first@)) by {
                let q = choose|q: int| 0 <= q < second_preset@.len() && #[trigger] second_preset@[q]@.id == id;
                assert(second_preset@[q]@ == net.transitions_map()[id]);
            }
        }
        true
    }

    /// Whether two places feeding `transition` witness w1.
    fn transition_has_w1_places(&self, net: &PetriNet, transition: &Transition, first: &str, second: &str) -> (r: bool)
        requires
            self.wf(),
            net.wf(),
            net.transitions_map().dom().contains(transition@.id),
            net.transitions_map()[transition@.id] == transition@,
        ensures
            r == exists|p1: u64, p2: u64| #[trigger] self.w1_arcs(*net, transition@.id, p1, p2, first@, second@),
    {
        let arcs = transition.incoming_arcs();
        let ghost av = crate::petri_net::arcs_view(arcs@);
        let ghost tid = transition@.id;
        let mut i: usize = 0;
        while i < arcs.len()
            invariant
                self.wf(),
                net.wf(),
                av == crate::petri_net::arcs_view(arcs@),
                av == transition@.incoming,
                net.transitions_map()[tid] == transition@,
                tid == transition@.id,
                i <= arcs@.len(),
                forall|x: int, y: int| 0 <= x < i && 0 <= y < av.len() ==> !#[trigger] self.w1_places(*net, av[x].1, av[y].1, first@, second@),
            decreases arcs.len() - i,
        {
            let mut j: usize = 0;
            while j < arcs.len()
                invariant
                    self.wf(),
                    net.wf(),
                    av == crate::petri_net::arcs_view(arcs@),
                    av == transition@.incoming,
                    net.transitions_map()[tid] == transition@,
                    tid == transition@.id,
                    i < arcs@.len(),
                    j <= arcs@.len(),
                    forall|x: int, y: int| 0 <= x < i && 0 <= y < av.len() ==> !#[trigger] self.w1_places(*net, av[x].1, av[y].1, first@, second@),
                    forall|y: int| 0 <= y < j ==> !#[trigger] self.w1_places(*net, av[i as int].1, av[y].1, first@, second@),
                decreases arcs.len() - j,
            {
                let p1 = arcs[i].place_id();
                let p2 = arcs[j].place_id();
                assert(av[i as int].1 == p1 && av[j as int].1 == p2);
                if self.w1_places_hold(net, p1, p2, first, second) {
                    assert(touches(av, p1));
                    assert(touches(av, p2));
                    assert(self.w1_arcs(*net, tid, p1, p2, first@, second@));
                    return true;
                }
                j = j + 1;
            }
            i = i + 1;
        }
        proof {
            assert forall|p1: u64, p2: u64| !#[trigger] self.w1_arcs(*net, tid, p1, p2, first@, second@) by {
                if self.w1_arcs(*net, tid, p1, p2, first@, second@) {
                    let x = choose|x: int| 0 <= x < av.len() && #[trigger] av[x].1 == p1;
                    let y = choose|y: int| 0 <= y < av.len() && #[trigger] av[y].1 == p2;
                    assert(!self.w1_places(*net, av[x].1, av[y].1, first@, second@));
                }
            }
        }
        false
    }

    /// Whether `second` is in the w1 relation with `first` in `petri_net`.
    pub fn is_in_w1_relation(&self, first: &str, second: &str, petri_net: &PetriNet) -> (r: bool)
        requires
            self.wf(),
            petri_net.wf(),
        ensures
            r == self.w1(first@, second@, *petri_net),
    {
        if self.is_in_direct_relation(first, second) {
            return false;
        }
        let classes = self.info.all_event_classes();
        let mut i: usize = 0;
        while i < classes.len()
            invariant
                self.wf(),
                petri_net.wf(),
                !self.direct(first@, second@),
                forall|c: Seq<char>| #[trigger] classes@.contains(c) <==> is_class(self.info_log(), c),
                i <= classes@.len(),
                forall|k: int| 0 <= k < i ==> !#[trigger] self.w1_at_class(*petri_net, classes@[k], first@, second@),
            decreases classes@.len() - i,
        {
            let class = classes.get(i);
            match petri_net.find_transition_by_name(class.as_str()) {
                Some(transition) => {
                    if self.transition_has_w1_places(petri_net, transition, first, second) {
                        assert(classes@.contains(class@));
                        assert(petri_net.transition_named(class@) == Some(transition@.id));
                        let ghost (p1, p2) = choose|p1: u64, p2: u64| #[trigger] self.w1_arcs(*petri_net, transition@.id, p1, p2, first@, second@);
                        assert(self.w1_arcs(*petri_net, transition@.id, p1, p2, first@, second@));
                        assert(petri_net.transition_named(class@) is Some);
                        assert(petri_net.transition_named(class@)->0 == transition@.id);
                        assert(self.w1_arcs(*petri_net, petri_net.transition_named(class@)->0, p1, p2, first@, second@));
                        assert(self.w1_at_class(*petri_net, class@, first@, second@));
                        return true;
                    }
                },
                None => {},
            }
            i = i + 1;
        }
        proof {
            assert forall|c: Seq<char>| is_class(self.info_log(), c) implies !#[trigger] self.w1_at_class(*petri_net, c, first@, second@) by {
                assert(classes@.contains(c));
                let k = choose|k: int| 0 <= k < classes@.len() && classes@[k] == c;
            }
        }
        false
    }
}

/// The alpha++ (NFC) footprint: every two classes stand in one of the
/// relations, causality (either way) excludes parallelism and
/// unrelatedness, parallelism and unrelatedness exclude each other and are
/// symmetric, and two classes in a length-two loop that directly follow each
/// other are causal both ways, never parallel.
pub proof fn lemma_alpha_plus_nfc_footprint<'a>(p: &AlphaPlusNfcRelationsProvider<'a>, a: Seq<char>, b: Seq<char>)
    ensures
        p.causal(a, b) || p.causal(b, a) || p.parallel(a, b) || p.unrelated(a, b),
        !(p.causal(a, b) && p.parallel(a, b)),
        !(p.causal(b, a) && p.parallel(a, b)),
        !(p.causal(a, b) && p.unrelated(a, b)),
        !(p.parallel(a, b) && p.unrelated(a, b)),
        p.parallel(a, b) == p.parallel(b, a),
        p.unrelated(a, b) == p.unrelated(b, a),
        (p.triangle(a, b) || p.triangle(b, a)) && p.direct(a, b) && p.direct(b, a) ==> p.causal(a, b) && p.causal(b, a)
            && !p.parallel(a, b),
{
}

} // verus!
