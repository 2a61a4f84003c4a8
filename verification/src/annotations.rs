//! Annotating the arcs of a Petri net with how often a replay of a log
//! passes along them.
use vstd::prelude::*;
use std::collections::HashMap;
use crate::event_log::{EventLog, traces_view};
use crate::petri_net::{PetriNet, TransitionView};
use crate::replay::{ReplayState, fire, firing_path, marking_map, replay_path, trace_fits};

verus! {

broadcast use vstd::std_specs::hash::group_hash_axioms;

/// The arcs of a transition, incoming ones first, by identifier.
pub open spec fn transition_arcs(t: TransitionView) -> Seq<u64> {
    t.incoming.map_values(|a: (u64, u64)| a.0) + t.outgoing.map_values(|a: (u64, u64)| a.0)
}

/// The arcs passed when firing the transitions of `path`, in order.
pub open spec fn path_arcs(transitions: Map<u64, TransitionView>, path: Seq<u64>) -> Seq<u64>
    decreases path.len(),
{
    if path.len() == 0 {
        Seq::empty()
    } else {
        path_arcs(transitions, path.drop_last()) + transition_arcs(transitions[path.last()])
    }
}

/// The arcs passed when firing the transitions of all `paths`, in order.
pub open spec fn paths_arcs(transitions: Map<u64, TransitionView>, paths: Seq<Seq<u64>>) -> Seq<u64>
    decreases paths.len(),
{
    if paths.len() == 0 {
        Seq::empty()
    } else {
        paths_arcs(transitions, paths.drop_last()) + path_arcs(transitions, paths.last())
    }
}

/// How often `a` occurs in `s`.
pub open spec fn occurrences(s: Seq<u64>, a: u64) -> nat
    decreases s.len(),
{
    if s.len() == 0 {
        0
    } else {
        occurrences(s.drop_last(), a) + if s.last() == a { 1nat } else { 0nat }
    }
}

/// The count of every identifier of `s` that occurs, held at `usize::MAX`.
pub open spec fn counts(s: Seq<u64>) -> Map<u64, usize> {
    Map::new(
        |a: u64| occurrences(s, a) > 0,
        |a: u64| if occurrences(s, a) < usize::MAX { occurrences(s, a) as usize } else { usize::MAX },
    )
}

/// Adds one to the count of `key`, which stays at `usize::MAX` once there.
fn count_one(map: &mut HashMap<u64, usize>, key: u64, seen: Ghost<Seq<u64>>)
    requires
        old(map)@ == counts(seen@),
    ensures
        final(map)@ == counts(seen@.push(key)),
{
    let next = match map.get(&key) {
        Some(count) => if *count < usize::MAX { *count + 1 } else { usize::MAX },
        None => 1,
    };
    map.insert(key, next);
    proof {
        let s = seen@.push(key);
        assert(s.drop_last() =~= seen@);
        assert forall|a: u64| occurrences(s, a) == occurrences(seen@, a) + if a == key { 1nat } else { 0nat } by {}
        assert(map@ =~= counts(s));
    }
}

/// Counts the arcs of the transitions of `path` into `map`.
fn count_path_arcs(net: &PetriNet, path: &Vec<u64>, map: &mut HashMap<u64, usize>, seen: Ghost<Seq<u64>>)
    requires
        net.wf(),
        forall|k: int| 0 <= k < path@.len() ==> net.transitions_map().dom().contains(#[trigger] path@[k]),
        old(map)@ == counts(seen@),
    ensures
        final(map)@ == counts(seen@ + path_arcs(net.transitions_map(), path@)),
{
    let ghost tm = net.transitions_map();
    let mut k: usize = 0;
    while k < path.len()
        invariant
            net.wf(),
            tm == net.transitions_map(),
            k <= path@.len(),
            forall|k: int| 0 <= k < path@.len() ==> tm.dom().contains(#[trigger] path@[k]),
            map@ == counts(seen@ + path_arcs(tm, path@.take(k as int))),
        decreases path.len() - k,
    {
        let transition = net.transition(&path[k]);
        let ghost base = seen@ + path_arcs(tm, path@.take(k as int));
        let ghost arcs = transition_arcs(transition@);
        let incoming = transition.incoming_arcs();
        let outgoing = transition.outgoing_arcs();
        let mut j: usize = 0;
        while j < incoming.len()
            invariant
                j <= incoming@.len(),
                crate::petri_net::arcs_view(incoming@) == transition@.incoming,
                map@ == counts(base + transition@.incoming.map_values(|a: (u64, u64)| a.0).take(j as int)),
            decreases incoming.len() - j,
        {
            let ghost ins = transition@.incoming.map_values(|a: (u64, u64)| a.0);
            let id = incoming[j].id();
            assert(ins[j as int] == id);
            count_one(map, id, Ghost(base + ins.take(j as int)));
            assert(base + ins.take(j + 1) =~= (base + ins.take(j as int)).push(id));
            j = j + 1;
        }
        let ghost ins = transition@.incoming.map_values(|a: (u64, u64)| a.0);
        assert(ins.take(ins.len() as int) =~= ins);
        let mut j: usize = 0;
        while j < outgoing.len()
            invariant
                j <= outgoing@.len(),
                crate::petri_net::arcs_view(outgoing@) == transition@.outgoing,
                map@ == counts(base + ins + transition@.outgoing.map_values(|a: (u64, u64)| a.0).take(j as int)),
            decreases outgoing.len() - j,
        {
            let ghost outs = transition@.outgoing.map_values(|a: (u64, u64)| a.0);
            let id = outgoing[j].id();
            assert(outs[j as int] == id);
            count_one(map, id, Ghost(base + ins + outs.take(j as int)));
            assert(base + ins + outs.take(j + 1) =~= (base + ins + outs.take(j as int)).push(id));
            j = j + 1;
        }
        proof {
            let outs = transition@.outgoing.map_values(|a: (u64, u64)| a.0);
            assert(outs.take(outs.len() as int) =~= outs);
            assert(path@.take(k + 1).drop_last() =~= path@.take(k as int));
            assert(base + ins + outs =~= seen@ + path_arcs(tm, path@.take(k + 1)));
        }
        k = k + 1;
    }
    assert(path@.take(path@.len() as int) =~= path@);
}

proof fn lemma_firing_path_in_net(transitions: Map<u64, TransitionView>, m: Map<u64, usize>, trace: Seq<Seq<char>>, i: int, path: Seq<u64>)
    requires
        0 <= i,
        firing_path(transitions, m, trace, i, path),
    ensures
        forall|k: int| 0 <= k < path.len() ==> transitions.dom().contains(#[trigger] path[k]),
    decreases trace.len() - i,
{
    if i < trace.len() {
        let next = fire(m, transitions[path[0]])->0;
        lemma_firing_path_in_net(transitions, next, trace, i + 1, path.drop_first());
        assert forall|k: int| 0 <= k < path.len() implies transitions.dom().contains(#[trigger] path[k]) by {
            if k > 0 {
                assert(path[k] == path.drop_first()[k - 1]);
            }
        }
    }
}

/// How often a replay of `log` on `net` passes along each arc, by arc
/// identifier; `None` when some trace cannot be replayed from the initial
/// marking (or there is none). Each trace is replayed along the first
/// choice of transitions the search finds.
pub fn annotate_with_counts(log: &EventLog, net: &PetriNet) -> (r: Option<HashMap<u64, usize>>)
    requires
        net.wf(),
    ensures
        r is None <==> !(forall|t: int| 0 <= t < log@.len() ==> trace_fits(*net, #[trigger] log@[t])),
        r matches Some(m) ==> exists|paths: Seq<Seq<u64>>| #[trigger] paths.len() == log@.len() && (forall|t: int| 0 <= t < log@.len()
            ==> firing_path(net.transitions_map(), marking_map(net.initial()->0), log@[t], 0, #[trigger] paths[t]))
            && m@ == counts(paths_arcs(net.transitions_map(), paths)),
{
    let ghost tm = net.transitions_map();
    let traces = log.traces();
    let mut map: HashMap<u64, usize> = HashMap::new();
    let ghost mut paths: Seq<Seq<u64>> = Seq::empty();
    proof {
        assert(map@ =~= counts(paths_arcs(tm, paths)));
    }
    let mut t: usize = 0;
    while t < traces.len()
        invariant
            net.wf(),
            tm == net.transitions_map(),
            traces_view(traces@) == log@,
            t <= traces@.len(),
            paths.len() == t,
            t > 0 ==> net.initial() is Some,
            forall|u: int| 0 <= u < t ==> trace_fits(*net, #[trigger] log@[u]),
            forall|u: int| 0 <= u < t ==> firing_path(tm, marking_map(net.initial()->0), log@[u], 0, #[trigger] paths[u]),
            map@ == counts(paths_arcs(tm, paths)),
        decreases traces.len() - t,
    {
        assert(traces@[t as int]@ == log@[t as int]);
        let marking = match net.initial_marking() {
            Some(m) => m.clone_marking(),
            None => {
                assert(!trace_fits(*net, log@[t as int]));
                return None;
            },
        };
        let state = ReplayState::new(marking);
        let trace = &traces[t];
        let path = match replay_path(net, trace, 0, &state) {
            Some(p) => p,
            None => {
                assert(!trace_fits(*net, log@[t as int]));
                return None;
            },
        };
        proof {
            lemma_firing_path_in_net(tm, state@, trace@, 0, path@);
        }
        count_path_arcs(net, &path, &mut map, Ghost(paths_arcs(tm, paths)));
        proof {
            let np = paths.push(path@);
            assert(np.drop_last() =~= paths);
            assert(paths_arcs(tm, np) == paths_arcs(tm, paths) + path_arcs(tm, path@));
            assert forall|u: int| 0 <= u < t + 1 implies firing_path(tm, marking_map(net.initial()->0), log@[u], 0, #[trigger] np[u]) by {
                if u < t {
                    assert(np[u] == paths[u]);
                }
            }
            paths = np;
        }
        t = t + 1;
    }
    Some(map)
}

/// The count of `a` in `s` is the number of positions of `s` holding `a`.
pub proof fn lemma_count_counts_every_occurrence(s: Seq<u64>, a: u64)
    ensures
        occurrences(s, a) == s.filter(|x: u64| x == a).len(),
    decreases s.len(),
{
    let is_a = |x: u64| x == a;
    if s.len() == 0 {
        reveal(Seq::filter);
        assert(s.filter(is_a) =~= Seq::<u64>::empty());
    } else {
        let s0 = s.drop_last();
        lemma_count_counts_every_occurrence(s0, a);
        assert(s =~= s0.push(s.last()));
        s0.lemma_filter_push(s.last(), is_a);
    }
}

/// The arcs passed along a path put together from two paths are those of
/// the first followed by those of the second, and a single step passes every
/// incoming and every outgoing arc of its transition once.
pub proof fn lemma_path_arcs_compose(transitions: Map<u64, TransitionView>, p1: Seq<u64>, p2: Seq<u64>)
    ensures
        path_arcs(transitions, p1 + p2) == path_arcs(transitions, p1) + path_arcs(transitions, p2),
        forall|t: u64| #[trigger] path_arcs(transitions, seq![t]) == transition_arcs(transitions[t]),
        forall|t: TransitionView| (#[trigger] transition_arcs(t)).len() == t.incoming.len() + t.outgoing.len(),
    decreases p2.len(),
{
    assert forall|t: u64| #[trigger] path_arcs(transitions, seq![t]) == transition_arcs(transitions[t]) by {
        assert(seq![t].drop_last() =~= Seq::<u64>::empty());
        assert(path_arcs(transitions, seq![t].drop_last()) == Seq::<u64>::empty());
        assert(Seq::<u64>::empty() + transition_arcs(transitions[t]) =~= transition_arcs(transitions[t]));
    }
    if p2.len() == 0 {
        assert(p1 + p2 =~= p1);
        assert(path_arcs(transitions, p1) + path_arcs(transitions, p2) =~= path_arcs(transitions, p1));
    } else {
        lemma_path_arcs_compose(transitions, p1, p2.drop_last());
        assert((p1 + p2).drop_last() =~= p1 + p2.drop_last());
        assert((p1 + p2).last() == p2.last());
        assert(path_arcs(transitions, p1 + p2) =~= path_arcs(transitions, p1) + path_arcs(transitions, p2));
    }
}

} // verus!
