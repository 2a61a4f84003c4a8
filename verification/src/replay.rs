//! Token replay of an event log on a Petri net: a trace fits when some
//! choice of transitions, one per event and named after it, can fire in turn
//! from the initial marking.
use vstd::prelude::*;
use std::collections::HashMap;
use crate::event_log::{EventLog, Trace};
use crate::petri_net::{Marking, PetriNet, Transition, TransitionView, markings_view};

verus! {

broadcast use vstd::std_specs::hash::group_hash_axioms;

/// Takes one token from the place of every arc, in order; `None` when a
/// place has no token left.
pub open spec fn consume(m: Map<u64, usize>, arcs: Seq<(u64, u64)>) -> Option<Map<u64, usize>>
    decreases arcs.len(),
{
    if arcs.len() == 0 {
        Some(m)
    } else {
        match consume(m, arcs.drop_last()) {
            None => None,
            Some(m2) => {
                let p = arcs.last().1;
                if m2.contains_key(p) && m2[p] >= 1 {
                    if m2[p] == 1 {
                        Some(m2.remove(p))
                    } else {
                        Some(m2.insert(p, (m2[p] - 1) as usize))
                    }
                } else {
                    None
                }
            },
        }
    }
}

/// Puts one token into the place of every arc, in order; `None` when a
/// count would exceed `usize::MAX`.
pub open spec fn produce(m: Map<u64, usize>, arcs: Seq<(u64, u64)>) -> Option<Map<u64, usize>>
    decreases arcs.len(),
{
    if arcs.len() == 0 {
        Some(m)
    } else {
        match produce(m, arcs.drop_last()) {
            None => None,
            Some(m2) => {
                let p = arcs.last().1;
                if m2.contains_key(p) {
                    if m2[p] == usize::MAX {
                        None
                    } else {
                        Some(m2.insert(p, (m2[p] + 1) as usize))
                    }
                } else {
                    Some(m2.insert(p, 1))
                }
            },
        }
    }
}

proof fn lemma_consume_none(m: Map<u64, usize>, arcs: Seq<(u64, u64)>, k: int)
    requires
        0 <= k <= arcs.len(),
        consume(m, arcs.take(k)) is None,
    ensures
        consume(m, arcs) is None,
    decreases arcs.len() - k,
{
    if k == arcs.len() {
        assert(arcs.take(k) =~= arcs);
    } else {
        assert(arcs.take(k + 1).drop_last() =~= arcs.take(k));
        lemma_consume_none(m, arcs, k + 1);
    }
}

proof fn lemma_produce_none(m: Map<u64, usize>, arcs: Seq<(u64, u64)>, k: int)
    requires
        0 <= k <= arcs.len(),
        produce(m, arcs.take(k)) is None,
    ensures
        produce(m, arcs) is None,
    decreases arcs.len() - k,
{
    if k == arcs.len() {
        assert(arcs.take(k) =~= arcs);
    } else {
        assert(arcs.take(k + 1).drop_last() =~= arcs.take(k));
        lemma_produce_none(m, arcs, k + 1);
    }
}

/// The marking after `t` fires in `m`; `None` when it cannot fire.
#[verifier::opaque]
pub open spec fn fire(m: Map<u64, usize>, t: TransitionView) -> Option<Map<u64, usize>> {
    match consume(m, t.incoming) {
        None => None,
        Some(m2) => produce(m2, t.outgoing),
    }
}

/// The marking of a list of marked places (a later entry for a place wins).
pub open spec fn marking_map(places: Seq<(u64, usize)>) -> Map<u64, usize>
    decreases places.len(),
{
    if places.len() == 0 {
        Map::empty()
    } else {
        marking_map(places.drop_last()).insert(places.last().0, places.last().1)
    }
}

/// From position `i` on, the events of `trace` can be replayed on `net`
/// starting in marking `m`.
pub open spec fn replayable(net: PetriNet, m: Map<u64, usize>, trace: Seq<Seq<char>>, i: int) -> bool
    decreases trace.len() - i,
{
    if i >= trace.len() || i < 0 {
        true
    } else {
        exists|id: u64| #![trigger net.transitions_map()[id]]
            net.transitions_map().dom().contains(id) && net.transitions_map()[id].name == trace[i]
                && fire(m, net.transitions_map()[id]) is Some
                && replayable(net, fire(m, net.transitions_map()[id])->0, trace, i + 1)
    }
}

/// A marking reached during replay.
pub struct ReplayState {
    markings: HashMap<u64, usize>,
}

impl View for ReplayState {
    type V = Map<u64, usize>;

    closed spec fn view(&self) -> Map<u64, usize> {
        self.markings@
    }
}

impl ReplayState {
    pub fn new_raw(markings: HashMap<u64, usize>) -> (r: Self)
        ensures
            r@ == markings@,
    {
        ReplayState { markings }
    }

    /// The state of a marking.
    pub fn new(initial_marking: Marking) -> (r: Self)
        ensures
            r@ == marking_map(initial_marking@),
    {
        let places = initial_marking.active_places();
        let mut markings: HashMap<u64, usize> = HashMap::new();
        let mut i: usize = 0;
        while i < places.len()
            invariant
                i <= places@.len(),
                markings_view(places@) == initial_marking@,
                markings@ == marking_map(initial_marking@.take(i as int)),
            decreases places.len() - i,
        {
            let single = &places[i];
            assert(initial_marking@[i as int] == single@);
            assert(initial_marking@.take(i + 1).drop_last() =~= initial_marking@.take(i as int));
            markings.insert(single.place_id(), single.tokens_count());
            i = i + 1;
        }
        assert(initial_marking@.take(initial_marking@.len() as int) =~= initial_marking@);
        ReplayState { markings }
    }

    /// The marking after `transition` fires; `None` when it cannot fire.
    fn fire_transition(&self, transition: &Transition) -> (r: Option<ReplayState>)
        ensures
            match r {
                Some(s) => fire(self@, transition@) == Some(s@),
                None => fire(self@, transition@) is None,
            },
    {
        let mut markings = self.markings.clone();
        let incoming = transition.incoming_arcs();
        let ghost ins = transition@.incoming;
        let mut k: usize = 0;
        assert(ins.take(0) =~= Seq::<(u64, u64)>::empty());
        while k < incoming.len()
            invariant
                k <= incoming@.len(),
                crate::petri_net::arcs_view(incoming@) == ins,
                ins == transition@.incoming,
                consume(self@, ins.take(k as int)) == Some(markings@),
            decreases incoming.len() - k,
        {
            let place_id = incoming[k].place_id();
            assert(ins[k as int].1 == place_id);
            assert(ins.take(k + 1).drop_last() =~= ins.take(k as int));
            assert(ins.take(k + 1).last() == ins[k as int]);
            match markings.get(&place_id) {
                Some(count) => {
                    let count = *count;
                    if count == 0 {
                        proof {
                            reveal(fire);
                            assert(markings@.contains_key(place_id) && markings@[place_id] == 0);
                            assert(consume(self@, ins.take(k + 1)) is None);
                            lemma_consume_none(self@, ins, k + 1);
                        }
                        return None;
                    } else if count == 1 {
                        markings.remove(&place_id);
                    } else {
                        markings.insert(place_id, count - 1);
                    }
                },
                None => {
                    proof {
                        reveal(fire);
                        assert(!markings@.contains_key(place_id));
                        assert(consume(self@, ins.take(k + 1)) is None);
                        lemma_consume_none(self@, ins, k + 1);
                    }
                    return None;
                },
            }
            k = k + 1;
        }
        assert(ins.take(ins.len() as int) =~= ins);
        let ghost consumed = markings@;
        let outgoing = transition.outgoing_arcs();
        let ghost outs = transition@.outgoing;
        let mut k: usize = 0;
        assert(outs.take(0) =~= Seq::<(u64, u64)>::empty());
        while k < outgoing.len()
            invariant
                k <= outgoing@.len(),
                crate::petri_net::arcs_view(outgoing@) == outs,
                outs == transition@.outgoing,
                consume(self@, transition@.incoming) == Some(consumed),
                produce(consumed, outs.take(k as int)) == Some(markings@),
            decreases outgoing.len() - k,
        {
            let place_id = outgoing[k].place_id();
            assert(outs[k as int].1 == place_id);
            assert(outs.take(k + 1).drop_last() =~= outs.take(k as int));
            assert(outs.take(k + 1).last() == outs[k as int]);
            match markings.get(&place_id) {
                Some(count) => {
                    let count = *count;
                    if count == usize::MAX {
                        proof {
                            reveal(fire);
                            assert(markings@.contains_key(place_id) && markings@[place_id] == usize::MAX);
                            assert(produce(consumed, outs.take(k + 1)) is None);
                            lemma_produce_none(consumed, outs, k + 1);
                        }
                        return None;
                    }
                    markings.insert(place_id, count + 1);
                },
                None => {
                    markings.insert(place_id, 1);
                },
            }
            k = k + 1;
        }
        assert(outs.take(outs.len() as int) =~= outs);
        assert(consume(self@, transition@.incoming) == Some(consumed));
        proof {
            reveal(fire);
        }
        Some(ReplayState { markings })
    }

    /// The states reached by firing, in order, each of `candidates` that can fire.
    fn fire_candidates(&self, candidates: &Vec<&Transition>) -> (r: Vec<ReplayState>)
        ensures
            states_view(r@) == successors(self@, candidates@.map_values(|t: &Transition| t@)),
    {
        let ghost cviews = candidates@.map_values(|t: &Transition| t@);
        let mut new_states: Vec<ReplayState> = Vec::new();
        let mut i: usize = 0;
        while i < candidates.len()
            invariant
                i <= candidates@.len(),
                cviews == candidates@.map_values(|t: &Transition| t@),
                states_view(new_states@) == successors(self@, cviews.take(i as int)),
            decreases candidates.len() - i,
        {
            assert(cviews.take(i + 1).drop_last() =~= cviews.take(i as int));
            assert(cviews.take(i + 1).last() == candidates@[i as int]@);
            match self.fire_transition(candidates[i]) {
                Some(s) => {
                    new_states.push(s);
                },
                None => {},
            }
            assert(states_view(new_states@) =~= successors(self@, cviews.take(i + 1)));
            i = i + 1;
        }
        assert(cviews.take(candidates@.len() as int) =~= cviews);
        new_states
    }

    /// The states reached by firing, from `state`, each transition named
    /// `transition` that can fire, one state per such transition in the order
    /// in which the net lists them; `None` when the net has no such transition.
    pub fn handle_transition(state: &ReplayState, net: &PetriNet, transition: &str) -> (r: Option<Vec<ReplayState>>)
        requires
            net.wf(),
        ensures
            r is None <==> !exists|id: u64| net.transitions_map().dom().contains(id) && #[trigger] net.transitions_map()[id].name
                == transition@,
            r matches Some(v) ==> next_states(net.transitions_map(), state@, transition@, states_view(v@)),
            r matches Some(v) ==> exists|candidates: Seq<TransitionView>| #[trigger] candidates_of(net.transitions_map(), transition@, candidates)
                && states_view(v@) == successors(state@, candidates),
    {
        let candidates = match candidates_named(net, transition) {
            Some(c) => c,
            None => {
                return None;
            },
        };
        let new_states = state.fire_candidates(&candidates);
        proof {
            lemma_successors_are_next(net.transitions_map(), state@, transition@, candidates@.map_values(|t: &Transition| t@));
            assert(candidates_of(net.transitions_map(), transition@, candidates@.map_values(|t: &Transition| t@)));
        }
        Some(new_states)
    }
}

/// The markings of a list of states.
pub open spec fn states_view(v: Seq<ReplayState>) -> Seq<Map<u64, usize>> {
    v.map_values(|s: ReplayState| s@)
}

/// The markings reached, in order, by firing each of `candidates` that can fire in `m`.
pub open spec fn successors(m: Map<u64, usize>, candidates: Seq<TransitionView>) -> Seq<Map<u64, usize>>
    decreases candidates.len(),
{
    if candidates.len() == 0 {
        Seq::empty()
    } else {
        let rest = successors(m, candidates.drop_last());
        match fire(m, candidates.last()) {
            Some(s) => rest.push(s),
            None => rest,
        }
    }
}

/// `s` is reached from `m` by firing the transition `id` of the net, named `name`.
pub open spec fn fires_to(transitions: Map<u64, TransitionView>, m: Map<u64, usize>, name: Seq<char>, id: u64, s: Map<u64, usize>) -> bool {
    transitions.dom().contains(id) && transitions[id].name == name && fire(m, transitions[id]) == Some(s)
}

/// `s` is reached from `m` by firing some transition of the net named `name`.
pub open spec fn reached(transitions: Map<u64, TransitionView>, m: Map<u64, usize>, name: Seq<char>, s: Map<u64, usize>) -> bool {
    exists|id: u64| #[trigger] fires_to(transitions, m, name, id, s)
}

/// `states` are exactly the markings reached from `m` by firing a transition
/// of the net named `name`: each of them is so reached, and each transition
/// so named that can fire reaches one of them.
pub open spec fn next_states(transitions: Map<u64, TransitionView>, m: Map<u64, usize>, name: Seq<char>, states: Seq<Map<u64, usize>>) -> bool {
    &&& forall|j: int| 0 <= j < states.len() ==> #[trigger] reached(transitions, m, name, states[j])
    &&& forall|id: u64| #![trigger transitions[id]] transitions.dom().contains(id) && transitions[id].name == name && fire(m, transitions[id]) is Some
            ==> exists|j: int| 0 <= j < states.len() && #[trigger] fires_to(transitions, m, name, id, states[j])
}

/// The candidates are the transitions of the net named `name`, each once.
pub open spec fn candidates_of(transitions: Map<u64, TransitionView>, name: Seq<char>, candidates: Seq<TransitionView>) -> bool {
    &&& candidates.map_values(|t: TransitionView| t.id).no_duplicates()
    &&& forall|q: int| 0 <= q < candidates.len() ==> transitions.dom().contains(#[trigger] candidates[q].id)
        && transitions[candidates[q].id] == candidates[q] && candidates[q].name == name
    &&& forall|id: u64| #[trigger] transitions.dom().contains(id) && transitions[id].name == name
        ==> exists|q: int| 0 <= q < candidates.len() && #[trigger] candidates[q].id == id
}

proof fn lemma_successors_member(m: Map<u64, usize>, c: Seq<TransitionView>)
    ensures
        forall|j: int| #![trigger successors(m, c)[j]] 0 <= j < successors(m, c).len() ==> exists|q: int| 0 <= q < c.len()
            && fire(m, #[trigger] c[q]) == Some(successors(m, c)[j]),
        forall|q: int| #![trigger c[q]] 0 <= q < c.len() && fire(m, c[q]) is Some ==> exists|j: int|
            0 <= j < successors(m, c).len() && fire(m, c[q]) == Some(#[trigger] successors(m, c)[j]),
    decreases c.len(),
{
    if c.len() > 0 {
        let d = c.drop_last();
        lemma_successors_member(m, d);
        let rest = successors(m, d);
        assert forall|j: int| #![trigger successors(m, c)[j]] 0 <= j < successors(m, c).len() implies exists|q: int| 0 <= q < c.len()
            && fire(m, #[trigger] c[q]) == Some(successors(m, c)[j]) by {
            if j < rest.len() {
                assert(successors(m, c)[j] == rest[j]);
                let q = choose|q: int| 0 <= q < d.len() && fire(m, #[trigger] d[q]) == Some(rest[j]);
                assert(c[q] == d[q]);
            } else {
                assert(fire(m, c[c.len() - 1]) == Some(successors(m, c)[j]));
            }
        }
        assert forall|q: int| #![trigger c[q]] 0 <= q < c.len() && fire(m, c[q]) is Some implies exists|j: int|
            0 <= j < successors(m, c).len() && fire(m, c[q]) == Some(#[trigger] successors(m, c)[j]) by {
            if q < d.len() {
                assert(c[q] == d[q]);
                let j = choose|j: int| 0 <= j < rest.len() && fire(m, d[q]) == Some(#[trigger] rest[j]);
                assert(successors(m, c)[j] == rest[j]);
            } else {
                assert(successors(m, c)[rest.len() as int] == fire(m, c[q])->0);
            }
        }
    }
}

proof fn lemma_successor_fires(transitions: Map<u64, TransitionView>, m: Map<u64, usize>, name: Seq<char>, c: Seq<TransitionView>, j: int)
    requires
        candidates_of(transitions, name, c),
        0 <= j < successors(m, c).len(),
    ensures
        reached(transitions, m, name, successors(m, c)[j]),
{
    lemma_successors_member(m, c);
    let q = choose|q: int| 0 <= q < c.len() && fire(m, #[trigger] c[q]) == Some(successors(m, c)[j]);
    assert(fires_to(transitions, m, name, c[q].id, successors(m, c)[j]));
}

proof fn lemma_successors_are_next(transitions: Map<u64, TransitionView>, m: Map<u64, usize>, name: Seq<char>, c: Seq<TransitionView>)
    requires
        candidates_of(transitions, name, c),
    ensures
        next_states(transitions, m, name, successors(m, c)),
{
    lemma_successors_member(m, c);
    let states = successors(m, c);
    assert forall|j: int| 0 <= j < states.len() implies #[trigger] reached(transitions, m, name, states[j]) by {
        lemma_successor_fires(transitions, m, name, c, j);
    }
    assert forall|id: u64| #![trigger transitions[id]] transitions.dom().contains(id) && transitions[id].name == name && fire(m, transitions[id]) is Some
        implies exists|j: int| 0 <= j < states.len() && #[trigger] fires_to(transitions, m, name, id, states[j]) by {
        let q = choose|q: int| 0 <= q < c.len() && #[trigger] c[q].id == id;
        assert(c[q] == transitions[id]);
        let j = choose|j: int| 0 <= j < successors(m, c).len() && fire(m, c[q]) == Some(#[trigger] successors(m, c)[j]);
        assert(fires_to(transitions, m, name, id, states[j]));
    }
}

/// The transitions of `net` named `name`; `None` when there are none.
fn candidates_named<'a>(net: &'a PetriNet, name: &str) -> (r: Option<Vec<&'a Transition>>)
    requires
        net.wf(),
    ensures
        r is None <==> !exists|id: u64| net.transitions_map().dom().contains(id) && #[trigger] net.transitions_map()[id].name == name@,
        r matches Some(v) ==> candidates_of(net.transitions_map(), name@, v@.map_values(|t: &Transition| t@)),
{
    let r = net.find_all_transitions_by_name(name);
    proof {
        if r is Some {
            let v = r->0;
            let cviews = v@.map_values(|t: &Transition| t@);
            let tm = net.transitions_map();
            assert(cviews.map_values(|t: TransitionView| t.id) =~= v@.map_values(|t: &Transition| t@.id));
            assert forall|q: int| 0 <= q < cviews.len() implies tm.dom().contains(#[trigger] cviews[q].id)
                && tm[cviews[q].id] == cviews[q] && cviews[q].name == name@ by {
                assert(cviews[q] == v@[q]@);
            }
            assert forall|id: u64| #[trigger] tm.dom().contains(id) && tm[id].name == name@
                implies exists|q: int| 0 <= q < cviews.len() && #[trigger] cviews[q].id == id by {
                let q = choose|q: int| 0 <= q < v@.len() && #[trigger] v@[q]@.id == id;
                assert(cviews[q] == v@[q]@);
            }
        }
    }
    r
}

/// One replay step: the events from position `i` on can be replayed from `m`
/// exactly when, from one of the next states of the event at `i`, the events
/// after it can.
proof fn lemma_replay_step(net: PetriNet, m: Map<u64, usize>, trace: Seq<Seq<char>>, i: int, states: Seq<Map<u64, usize>>)
    requires
        0 <= i < trace.len(),
        next_states(net.transitions_map(), m, trace[i], states),
    ensures
        replayable(net, m, trace, i) <==> exists|j: int| 0 <= j < states.len() && replayable(net, #[trigger] states[j], trace, i + 1),
{
    let tm = net.transitions_map();
    if replayable(net, m, trace, i) {
        let id = choose|id: u64| #![trigger tm[id]] tm.dom().contains(id) && tm[id].name == trace[i]
            && fire(m, tm[id]) is Some && replayable(net, fire(m, tm[id])->0, trace, i + 1);
        let j = choose|j: int| 0 <= j < states.len() && #[trigger] fires_to(tm, m, trace[i], id, states[j]);
        assert(replayable(net, states[j], trace, i + 1));
    }
    if exists|j: int| 0 <= j < states.len() && replayable(net, #[trigger] states[j], trace, i + 1) {
        let j = choose|j: int| 0 <= j < states.len() && replayable(net, #[trigger] states[j], trace, i + 1);
        assert(reached(tm, m, trace[i], states[j]));
        let id = choose|id: u64| #[trigger] fires_to(tm, m, trace[i], id, states[j]);
        assert(tm.dom().contains(id) && tm[id].name == trace[i] && fire(m, tm[id]) is Some
            && replayable(net, fire(m, tm[id])->0, trace, i + 1));
    }
}

/// Whether the events of `trace` from position `i` on can be replayed from `state`.
fn replay_trace(net: &PetriNet, trace: &Trace, i: usize, state: &ReplayState) -> (r: bool)
    requires
        net.wf(),
        i <= trace@.len(),
    ensures
        r == replayable(*net, state@, trace@, i as int),
    decreases trace@.len() - i,
{
    let n = trace.len();
    if i >= n {
        return true;
    }
    let name = trace.name_at(i);
    match ReplayState::handle_transition(state, net, name.as_str()) {
        Some(next) => {
            let mut k: usize = next.len();
            while k > 0
                invariant
                    net.wf(),
                    n == trace@.len(),
                    i < n,
                    k <= next@.len(),
                    name@ == trace@[i as int],
                    next_states(net.transitions_map(), state@, name@, states_view(next@)),
                    forall|q: int| k <= q < next@.len() ==> !replayable(*net, (#[trigger] next@[q])@, trace@, i + 1),
                decreases k,
            {
                k = k - 1;
                if replay_trace(net, trace, i + 1, &next[k]) {
                    proof {
                        lemma_replay_step(*net, state@, trace@, i as int, states_view(next@));
                    }
                    assert(replayable(*net, states_view(next@)[k as int], trace@, i + 1));
                    return true;
                }
            }
            assert forall|j: int| 0 <= j < next@.len() implies !replayable(*net, #[trigger] states_view(next@)[j], trace@, i + 1) by {
                assert(states_view(next@)[j] == next@[j]@);
            }
            proof {
                lemma_replay_step(*net, state@, trace@, i as int, states_view(next@));
            }
            false
        },
        None => {
            false
        },
    }
}

/// The trace replays on `net` from its initial marking.
pub open spec fn trace_fits(net: PetriNet, trace: Seq<Seq<char>>) -> bool {
    net.initial() is Some && replayable(net, marking_map(net.initial()->0), trace, 0)
}

/// Whether every trace of `log` can be replayed on `net` from its initial
/// marking; a net without an initial marking replays no trace.
pub fn replay_petri_net(log: &EventLog, net: &PetriNet) -> (r: bool)
    requires
        net.wf(),
    ensures
        r == (forall|t: int| 0 <= t < log@.len() ==> trace_fits(*net, #[trigger] log@[t])),
{
    let traces = log.traces();
    let mut t: usize = 0;
    while t < traces.len()
        invariant
            net.wf(),
            crate::event_log::traces_view(traces@) == log@,
            t <= traces@.len(),
            forall|u: int| 0 <= u < t ==> trace_fits(*net, #[trigger] log@[u]),
        decreases traces.len() - t,
    {
        assert(traces@[t as int]@ == log@[t as int]);
        let marking = match net.initial_marking() {
            Some(m) => m.clone_marking(),
            None => {
                assert(!trace_fits(*net, log@[t as int]));
                return false;
            },
        };
        let state = ReplayState::new(marking);
        let trace = &traces[t];
        if !replay_trace(net, trace, 0, &state) {
            assert(!trace_fits(*net, log@[t as int]));
            return false;
        }
        assert(trace_fits(*net, log@[t as int]));
        t = t + 1;
    }
    true
}

/// `path` lists, in order, transitions of the net whose firing replays the
/// events of `trace` from position `i` on, starting in `m`.
pub open spec fn firing_path(transitions: Map<u64, TransitionView>, m: Map<u64, usize>, trace: Seq<Seq<char>>, i: int, path: Seq<u64>) -> bool
    decreases trace.len() - i,
{
    if i >= trace.len() || i < 0 {
        path.len() == 0
    } else {
        &&& path.len() > 0
        &&& transitions.dom().contains(path[0])
        &&& transitions[path[0]].name == trace[i]
        &&& fire(m, transitions[path[0]]) is Some
        &&& firing_path(transitions, fire(m, transitions[path[0]])->0, trace, i + 1, path.drop_first())
    }
}

/// The transitions that replay the events of `trace` from position `i` on,
/// starting from `state`; `None` when no choice of transitions does. Of the
/// transitions named after an event, the last one the net lists is tried first.
pub fn replay_path(net: &PetriNet, trace: &Trace, i: usize, state: &ReplayState) -> (r: Option<Vec<u64>>)
    requires
        net.wf(),
        i <= trace@.len(),
    ensures
        r is Some <==> replayable(*net, state@, trace@, i as int),
        r matches Some(p) ==> firing_path(net.transitions_map(), state@, trace@, i as int, p@),
    decreases trace@.len() - i,
{
    let n = trace.len();
    if i >= n {
        return Some(Vec::new());
    }
    let name = trace.name_at(i);
    let candidates = match candidates_named(net, name.as_str()) {
        Some(c) => c,
        None => {
            return None;
        },
    };
    let ghost cviews = candidates@.map_values(|t: &Transition| t@);
    let ghost tm = net.transitions_map();
    let mut k: usize = candidates.len();
    while k > 0
        invariant
            net.wf(),
            tm == net.transitions_map(),
            n == trace@.len(),
            i < n,
            name@ == trace@[i as int],
            k <= candidates@.len(),
            cviews == candidates@.map_values(|t: &Transition| t@),
            candidates_of(tm, name@, cviews),
            forall|q: int| k <= q < candidates@.len() ==> fire(state@, (#[trigger] candidates@[q])@) is None
                || !replayable(*net, fire(state@, candidates@[q]@)->0, trace@, i + 1),
        decreases k,
    {
        k = k - 1;
        assert(cviews[k as int] == candidates@[k as int]@);
        match state.fire_transition(candidates[k]) {
            Some(next) => {
                match replay_path(net, trace, i + 1, &next) {
                    Some(rest) => {
                        let id = candidates[k].id();
                        let mut path: Vec<u64> = Vec::new();
                        path.push(id);
                        let mut j: usize = 0;
                        while j < rest.len()
                            invariant
                                j <= rest@.len(),
                                path@ == seq![id] + rest@.take(j as int),
                            decreases rest.len() - j,
                        {
                            path.push(rest[j]);
                            assert(rest@.take(j + 1) =~= rest@.take(j as int).push(rest@[j as int]));
                            assert(path@ =~= seq![id] + rest@.take(j + 1));
                            j = j + 1;
                        }
                        proof {
                            assert(rest@.take(rest@.len() as int) =~= rest@);
                            assert(path@.drop_first() =~= rest@);
                            assert(tm[id] == candidates@[k as int]@);
                            assert(replayable(*net, fire(state@, tm[id])->0, trace@, i + 1));
                        }
                        return Some(path);
                    },
                    None => {},
                }
            },
            None => {},
        }
    }
    proof {
        assert forall|id: u64| #![trigger tm[id]] !(tm.dom().contains(id) && tm[id].name == trace@[i as int]
            && fire(state@, tm[id]) is Some && replayable(*net, fire(state@, tm[id])->0, trace@, i + 1)) by {
            if tm.dom().contains(id) && tm[id].name == trace@[i as int] {
                let q = choose|q: int| 0 <= q < cviews.len() && #[trigger] cviews[q].id == id;
                assert(cviews[q] == candidates@[q]@);
            }
        }
    }
    None
}

/// A trace can be replayed from a marking exactly when some choice of
/// transitions, one per event, named after the events and able to fire in
/// turn, exists.
pub proof fn lemma_replayable_iff_firing_path(net: PetriNet, m: Map<u64, usize>, trace: Seq<Seq<char>>, i: int)
    requires
        0 <= i,
    ensures
        replayable(net, m, trace, i) <==> exists|path: Seq<u64>| #[trigger] firing_path(net.transitions_map(), m, trace, i, path),
    decreases trace.len() - i,
{
    let tm = net.transitions_map();
    if i >= trace.len() {
        assert(firing_path(tm, m, trace, i, Seq::empty()));
    } else {
        if replayable(net, m, trace, i) {
            let id = choose|id: u64| #![trigger tm[id]] tm.dom().contains(id) && tm[id].name == trace[i]
                && fire(m, tm[id]) is Some && replayable(net, fire(m, tm[id])->0, trace, i + 1);
            let next = fire(m, tm[id])->0;
            lemma_replayable_iff_firing_path(net, next, trace, i + 1);
            let rest = choose|path: Seq<u64>| #[trigger] firing_path(tm, next, trace, i + 1, path);
            let path = seq![id] + rest;
            assert(path.drop_first() =~= rest);
            assert(firing_path(tm, m, trace, i, path));
        }
        if exists|path: Seq<u64>| #[trigger] firing_path(tm, m, trace, i, path) {
            let path = choose|path: Seq<u64>| #[trigger] firing_path(tm, m, trace, i, path);
            let id = path[0];
            let next = fire(m, tm[id])->0;
            lemma_replayable_iff_firing_path(net, next, trace, i + 1);
            assert(firing_path(tm, next, trace, i + 1, path.drop_first()));
            assert(tm.dom().contains(id) && tm[id].name == trace[i] && fire(m, tm[id]) is Some
                && replayable(net, fire(m, tm[id])->0, trace, i + 1));
        }
    }
}

/// The tokens a marking puts on place `p` (none when `p` is not marked).
pub open spec fn tokens(m: Map<u64, usize>, p: u64) -> int {
    if m.contains_key(p) { m[p] as int } else { 0 }
}

/// How many of `arcs` lead to or from place `p`.
pub open spec fn arcs_at(arcs: Seq<(u64, u64)>, p: u64) -> int {
    arcs.filter(|a: (u64, u64)| a.1 == p).len() as int
}

proof fn lemma_arcs_at_push(arcs: Seq<(u64, u64)>, arc: (u64, u64), p: u64)
    ensures
        arcs_at(arcs.push(arc), p) == arcs_at(arcs, p) + if arc.1 == p { 1int } else { 0int },
{
    reveal(Seq::filter);
    assert(arcs.push(arc).drop_last() =~= arcs);
    assert(arcs.push(arc).last() == arc);
}

proof fn lemma_arcs_at_empty(arcs: Seq<(u64, u64)>, p: u64)
    requires
        arcs.len() == 0,
    ensures
        arcs_at(arcs, p) == 0,
{
    reveal(Seq::filter);
}

/// Taking the tokens of `arcs` succeeds exactly when every place holds at
/// least as many tokens as arcs take from it, and then leaves each place
/// with that many fewer.
pub proof fn lemma_consume_takes_one_token_per_arc(m: Map<u64, usize>, arcs: Seq<(u64, u64)>)
    ensures
        consume(m, arcs) is Some <==> forall|p: u64| tokens(m, p) >= #[trigger] arcs_at(arcs, p),
        consume(m, arcs) matches Some(m2) ==> forall|p: u64| #[trigger] tokens(m2, p) == tokens(m, p) - arcs_at(arcs, p),
    decreases arcs.len(),
{
    if arcs.len() == 0 {
        assert forall|p: u64| #[trigger] arcs_at(arcs, p) == 0 by {
            lemma_arcs_at_empty(arcs, p);
        }
    } else {
        let a0 = arcs.drop_last();
        let last = arcs.last();
        lemma_consume_takes_one_token_per_arc(m, a0);
        assert(arcs =~= a0.push(last));
        assert forall|p: u64| #[trigger] arcs_at(arcs, p) == arcs_at(a0, p) + if last.1 == p { 1int } else { 0int } by {
            lemma_arcs_at_push(a0, last, p);
        }
        match consume(m, a0) {
            None => {
                let q = choose|q: u64| !(tokens(m, q) >= #[trigger] arcs_at(a0, q));
                assert(arcs_at(arcs, q) >= arcs_at(a0, q));
            },
            Some(m2) => {
                let p = last.1;
                assert(tokens(m2, p) == tokens(m, p) - arcs_at(a0, p));
                if m2.contains_key(p) && m2[p] >= 1 {
                    let m3 = consume(m, arcs)->0;
                    assert forall|q: u64| #[trigger] tokens(m3, q) == tokens(m, q) - arcs_at(arcs, q) by {
                        assert(tokens(m2, q) == tokens(m, q) - arcs_at(a0, q));
                    }
                    assert forall|q: u64| tokens(m, q) >= #[trigger] arcs_at(arcs, q) by {
                        assert(tokens(m2, q) == tokens(m, q) - arcs_at(a0, q));
                        assert(tokens(m2, q) >= 0);
                    }
                } else {
                    assert(!(tokens(m, p) >= arcs_at(arcs, p)));
                }
            },
        }
    }
}

/// Putting the tokens of `arcs` succeeds exactly when no place would hold
/// more than `usize::MAX` tokens, and then adds one token per arc to each place.
pub proof fn lemma_produce_puts_one_token_per_arc(m: Map<u64, usize>, arcs: Seq<(u64, u64)>)
    ensures
        produce(m, arcs) is Some <==> forall|p: u64| tokens(m, p) + #[trigger] arcs_at(arcs, p) <= usize::MAX,
        produce(m, arcs) matches Some(m2) ==> forall|p: u64| #[trigger] tokens(m2, p) == tokens(m, p) + arcs_at(arcs, p),
    decreases arcs.len(),
{
    if arcs.len() == 0 {
        assert forall|p: u64| #[trigger] arcs_at(arcs, p) == 0 by {
            lemma_arcs_at_empty(arcs, p);
        }
    } else {
        let a0 = arcs.drop_last();
        let last = arcs.last();
        lemma_produce_puts_one_token_per_arc(m, a0);
        assert(arcs =~= a0.push(last));
        assert forall|p: u64| #[trigger] arcs_at(arcs, p) == arcs_at(a0, p) + if last.1 == p { 1int } else { 0int } by {
            lemma_arcs_at_push(a0, last, p);
        }
        match produce(m, a0) {
            None => {
                let q = choose|q: u64| !(tokens(m, q) + #[trigger] arcs_at(a0, q) <= usize::MAX);
                assert(arcs_at(arcs, q) >= arcs_at(a0, q));
            },
            Some(m2) => {
                let p = last.1;
                assert(tokens(m2, p) == tokens(m, p) + arcs_at(a0, p));
                if m2.contains_key(p) && m2[p] == usize::MAX {
                    assert(!(tokens(m, p) + arcs_at(arcs, p) <= usize::MAX));
                } else {
                    let m3 = produce(m, arcs)->0;
                    assert forall|q: u64| #[trigger] tokens(m3, q) == tokens(m, q) + arcs_at(arcs, q) by {
                        assert(tokens(m2, q) == tokens(m, q) + arcs_at(a0, q));
                    }
                    assert forall|q: u64| tokens(m, q) + #[trigger] arcs_at(arcs, q) <= usize::MAX by {
                        assert(tokens(m2, q) == tokens(m, q) + arcs_at(a0, q));
                        assert(tokens(m3, q) <= usize::MAX);
                    }
                }
            },
        }
    }
}

/// The firing rule: a transition can fire exactly when each of its input
/// places holds a token per incoming arc (and no count would exceed
/// `usize::MAX`); firing takes one token per incoming arc and puts one per
/// outgoing arc on each place.
pub proof fn lemma_firing_moves_tokens(m: Map<u64, usize>, t: TransitionView)
    ensures
        fire(m, t) is Some <==> (forall|p: u64| tokens(m, p) >= #[trigger] arcs_at(t.incoming, p)) && (forall|p: u64|
            tokens(m, p) - arcs_at(t.incoming, p) + #[trigger] arcs_at(t.outgoing, p) <= usize::MAX),
        fire(m, t) matches Some(m2) ==> forall|p: u64| #[trigger] tokens(m2, p) == tokens(m, p) - arcs_at(t.incoming, p)
            + arcs_at(t.outgoing, p),
{
    reveal(fire);
    lemma_consume_takes_one_token_per_arc(m, t.incoming);
    match consume(m, t.incoming) {
        None => {},
        Some(m1) => {
            lemma_produce_puts_one_token_per_arc(m1, t.outgoing);
            assert forall|p: u64| tokens(m1, p) + #[trigger] arcs_at(t.outgoing, p) <= usize::MAX <==> tokens(m, p)
                - arcs_at(t.incoming, p) + arcs_at(t.outgoing, p) <= usize::MAX by {
                assert(tokens(m1, p) == tokens(m, p) - arcs_at(t.incoming, p));
            }
            if fire(m, t) is Some {
                let m2 = fire(m, t)->0;
                assert forall|p: u64| #[trigger] tokens(m2, p) == tokens(m, p) - arcs_at(t.incoming, p) + arcs_at(t.outgoing, p) by {
                    assert(tokens(m1, p) == tokens(m, p) - arcs_at(t.incoming, p));
                }
            }
        },
    }
}

} // verus!
