//! The event log: traces of named events.
use vstd::prelude::*;
use crate::text::{str_eq, strings_view};

verus! {

/// A single event; only its name (its class) matters to discovery.
pub struct Event {
    name: String,
}

impl View for Event {
    type V = Seq<char>;

    closed spec fn view(&self) -> Seq<char> {
        self.name@
    }
}

impl Event {
    pub fn new(name: String) -> (r: Self)
        ensures
            r@ == name@,
    {
        Event { name }
    }

    pub fn get_name(&self) -> (r: &String)
        ensures
            r@ == self@,
    {
        &self.name
    }

    pub fn set_name(&mut self, name: String)
        ensures
            final(self)@ == name@,
    {
        self.name = name;
    }

    pub fn clone_event(&self) -> (r: Self)
        ensures
            r@ == self@,
    {
        Event { name: self.name.clone() }
    }
}

/// A trace: the events of one case, in order.
pub struct Trace {
    events: Vec<Event>,
}

pub open spec fn events_view(events: Seq<Event>) -> Seq<Seq<char>> {
    events.map_values(|e: Event| e@)
}

impl View for Trace {
    type V = Seq<Seq<char>>;

    closed spec fn view(&self) -> Seq<Seq<char>> {
        events_view(self.events@)
    }
}

impl Trace {
    pub fn empty() -> (r: Self)
        ensures
            r@ == Seq::<Seq<char>>::empty(),
    {
        let r = Trace { events: Vec::new() };
        assert(r@ =~= Seq::<Seq<char>>::empty());
        r
    }

    pub fn push(&mut self, event: Event)
        ensures
            final(self)@ == old(self)@.push(event@),
    {
        self.events.push(event);
        assert(self@ =~= old(self)@.push(event@));
    }

    /// The event at position `i`.
    pub closed spec fn event_at(&self, i: int) -> Event {
        self.events@[i]
    }

    pub fn events(&self) -> (r: &Vec<Event>)
        ensures
            events_view(r@) == self@,
            forall|i: int| 0 <= i < r@.len() ==> r@[i] == #[trigger] self.event_at(i),
    {
        &self.events
    }

    pub fn len(&self) -> (n: usize)
        ensures
            n == self@.len(),
    {
        self.events.len()
    }

    pub fn name_at(&self, i: usize) -> (r: &String)
        requires
            i < self@.len(),
        ensures
            r@ == self@[i as int],
    {
        self.events[i].get_name()
    }

    pub fn clone_trace(&self) -> (r: Self)
        ensures
            r@ == self@,
    {
        let mut r = Trace::empty();
        let mut i: usize = 0;
        while i < self.events.len()
            invariant
                i <= self@.len(),
                self@.len() == self.events@.len(),
                r@ == self@.take(i as int),
            decreases self.events.len() - i,
        {
            r.push(self.events[i].clone_event());
            assert(self@.take(i + 1) =~= self@.take(i as int).push(self@[i as int]));
            i = i + 1;
        }
        assert(self@.take(self@.len() as int) =~= self@);
        r
    }
}

/// An event log: a sequence of traces.
pub struct EventLog {
    traces: Vec<Trace>,
}

pub open spec fn traces_view(traces: Seq<Trace>) -> Seq<Seq<Seq<char>>> {
    traces.map_values(|t: Trace| t@)
}

impl View for EventLog {
    type V = Seq<Seq<Seq<char>>>;

    closed spec fn view(&self) -> Seq<Seq<Seq<char>>> {
        traces_view(self.traces@)
    }
}

/// The trace with the events of class `name` removed.
pub open spec fn without_name(trace: Seq<Seq<char>>, name: Seq<char>) -> Seq<Seq<char>> {
    trace.filter(other_than(name))
}

/// Holds of the classes other than `name`.
pub open spec fn other_than(name: Seq<char>) -> spec_fn(Seq<char>) -> bool {
    |n: Seq<char>| n != name
}

/// The trace with the events whose class is in `names` removed.
pub open spec fn without_names(trace: Seq<Seq<char>>, names: Seq<Seq<char>>) -> Seq<Seq<char>> {
    trace.filter(|n: Seq<char>| !names.contains(n))
}

impl EventLog {
    pub fn empty() -> (r: Self)
        ensures
            r@ == Seq::<Seq<Seq<char>>>::empty(),
    {
        let r = EventLog { traces: Vec::new() };
        assert(r@ =~= Seq::<Seq<Seq<char>>>::empty());
        r
    }

    pub fn push(&mut self, trace: Trace)
        ensures
            final(self)@ == old(self)@.push(trace@),
    {
        self.traces.push(trace);
        assert(self@ =~= old(self)@.push(trace@));
    }

    /// The traces themselves.
    pub closed spec fn traces_seq(&self) -> Seq<Trace> {
        self.traces@
    }

    /// The event at position `i` of trace `t`.
    pub open spec fn event_at(&self, t: int, i: int) -> Event {
        self.traces_seq()[t].event_at(i)
    }

    pub fn traces(&self) -> (r: &Vec<Trace>)
        ensures
            traces_view(r@) == self@,
            r@ == self.traces_seq(),
    {
        &self.traces
    }

    pub fn traces_count(&self) -> (n: usize)
        ensures
            n == self@.len(),
    {
        self.traces.len()
    }


    pub fn clone_log(&self) -> (r: Self)
        ensures
            r@ == self@,
    {
        let mut r = EventLog::empty();
        let mut t: usize = 0;
        while t < self.traces.len()
            invariant
                t <= self@.len(),
                self@.len() == self.traces@.len(),
                r@ == self@.take(t as int),
            decreases self.traces.len() - t,
        {
            r.push(self.traces[t].clone_trace());
            assert(self@.take(t + 1) =~= self@.take(t as int).push(self@[t as int]));
            t = t + 1;
        }
        assert(self@.take(self@.len() as int) =~= self@);
        r
    }

    /// Builds a log from traces given by their event names.
    pub fn from_names(names: &Vec<Vec<String>>) -> (r: Self)
        ensures
            r@.len() == names@.len(),
            forall|t: int| 0 <= t < names@.len() ==> #[trigger] r@[t] == strings_view(names@[t]@),
    {
        let mut log = EventLog::empty();
        let mut t: usize = 0;
        while t < names.len()
            invariant
                t <= names@.len(),
                log@.len() == t,
                forall|k: int| 0 <= k < t ==> #[trigger] log@[k] == strings_view(names@[k]@),
            decreases names.len() - t,
        {
            let mut trace = Trace::empty();
            let mut i: usize = 0;
            while i < names[t].len()
                invariant
                    t < names@.len(),
                    i <= names@[t as int]@.len(),
                    trace@ == strings_view(names@[t as int]@).take(i as int),
                decreases names[t as int]@.len() - i,
            {
                trace.push(Event::new(names[t][i].clone()));
                assert(strings_view(names@[t as int]@).take(i + 1) =~= strings_view(names@[t as int]@).take(i as int).push(names@[t as int]@[i as int]@));
                i = i + 1;
            }
                assert(strings_view(names@[t as int]@).take(names@[t as int]@.len() as int)
                =~= strings_view(names@[t as int]@));
            log.push(trace);
            t = t + 1;
        }
        log
    }

    /// The event names of every trace.
    pub fn to_names(&self) -> (r: Vec<Vec<String>>)
        ensures
            r@.len() == self@.len(),
            forall|t: int| 0 <= t < self@.len() ==> #[trigger] strings_view(r@[t]@) == self@[t],
    {
        let mut r: Vec<Vec<String>> = Vec::new();
        let mut t: usize = 0;
        while t < self.traces.len()
            invariant
                t <= self@.len(),
                self@.len() == self.traces@.len(),
                r@.len() == t,
                forall|k: int| 0 <= k < t ==> #[trigger] strings_view(r@[k]@) == self@[k],
            decreases self.traces.len() - t,
        {
            let trace = &self.traces[t];
            let mut names: Vec<String> = Vec::new();
            let mut i: usize = 0;
            while i < trace.len()
                invariant
                    i <= trace@.len(),
                    t < self@.len(),
                    names@.len() == i,
                    trace@ == self@[t as int],
        strings_view(names@) == trace@.take(i as int),
                decreases trace@.len() - i,
            {
                let ghost before = names@;
                let name = trace.name_at(i).clone();
                assert(name@ == trace@[i as int]);
                names.push(name);
                assert(names@ == before.push(name));
                assert(strings_view(names@) =~= trace@.take(i as int + 1)) by {
                    assert(strings_view(before) =~= trace@.take(i as int));
                    assert forall|k: int| 0 <= k < i + 1 implies strings_view(names@)[k] == trace@.take(i as int + 1)[k] by {
                        if k < i {
                            assert(strings_view(names@)[k] == names@[k]@);
                            assert(names@[k] == before[k]);
                            assert(strings_view(before)[k] == before[k]@);
                        }
                    }
                }
                i = i + 1;
            }
            assert(trace@.take(trace@.len() as int) =~= trace@);
            r.push(names);
            t = t + 1;
        }
        r
    }
}

/// Keeps the events of a trace for which `keep` holds.
fn filter_trace_by(trace: &Trace, name: &str, names: Option<&crate::class_set::ClassSet>) -> (r: Trace)
    requires
        names matches Some(ns) ==> ns.wf(),
    ensures
        names is None ==> r@ == without_name(trace@, name@),
        names matches Some(ns) ==> r@ == without_names(trace@, ns@),
{
    let mut r = Trace::empty();
    let mut i: usize = 0;
    let ghost keep = match names {
        Some(ns) => |n: Seq<char>| !ns@.contains(n),
        None => other_than(name@),
    };
    while i < trace.len()
        invariant
            i <= trace@.len(),
            names matches Some(ns) ==> ns.wf(),
            keep == (match names {
                Some(ns) => |n: Seq<char>| !ns@.contains(n),
                None => other_than(name@),
            }),
            r@ == trace@.take(i as int).filter(keep),
        decreases trace@.len() - i,
    {
        let event_name = trace.name_at(i);
        let remove = match names {
            Some(ns) => ns.contains(event_name.as_str()),
            None => str_eq(event_name.as_str(), name),
        };
        proof {
            reveal_with_fuel(Seq::<_>::filter, 1);
            assert(trace@.take(i + 1).drop_last() =~= trace@.take(i as int));
        }
        if !remove {
            r.push(Event::new(event_name.clone()));
        }
        i = i + 1;
    }
    assert(trace@.take(trace@.len() as int) =~= trace@);
    r
}

fn filter_log(log: &mut EventLog, name: &str, names: Option<&crate::class_set::ClassSet>)
    requires
        names matches Some(ns) ==> ns.wf(),
    ensures
        final(log)@.len() == old(log)@.len(),
        names is None ==> forall|t: int|
            0 <= t < old(log)@.len() ==> #[trigger] final(log)@[t] == without_name(old(log)@[t], name@),
        names matches Some(ns) ==> forall|t: int|
            0 <= t < old(log)@.len() ==> #[trigger] final(log)@[t] == without_names(old(log)@[t], ns@),
{
    let mut traces: Vec<Trace> = Vec::new();
    let mut t: usize = 0;
    while t < log.traces.len()
        invariant
            t <= log@.len(),
            log@ == old(log)@,
            log@.len() == log.traces@.len(),
            names matches Some(ns) ==> ns.wf(),
            traces@.len() == t,
            names is None ==> forall|k: int|
                0 <= k < t ==> #[trigger] traces@[k]@ == without_name(log@[k], name@),
            names matches Some(ns) ==> forall|k: int|
                0 <= k < t ==> #[trigger] traces@[k]@ == without_names(log@[k], ns@),
        decreases log.traces.len() - t,
    {
        traces.push(filter_trace_by(&log.traces[t], name, names));
        t = t + 1;
    }
    log.traces = traces;
}

/// Removes every event whose name is `name`.
pub fn filter_log_by_name(log: &mut EventLog, name: &str)
    ensures
        final(log)@.len() == old(log)@.len(),
        forall|t: int| 0 <= t < old(log)@.len() ==> #[trigger] final(log)@[t] == without_name(old(log)@[t], name@),
{
    filter_log(log, name, None);
}

/// Removes every event whose name is in `names`.
pub fn filter_log_by_names(log: &mut EventLog, names: &crate::class_set::ClassSet)
    requires
        names.wf(),
    ensures
        final(log)@.len() == old(log)@.len(),
        forall|t: int| 0 <= t < old(log)@.len() ==> #[trigger] final(log)@[t] == without_names(old(log)@[t], names@),
{
    filter_log(log, "", Some(names));
}

proof fn lemma_filter_keeps_all(s: Seq<Seq<char>>, keep: spec_fn(Seq<char>) -> bool)
    requires
        forall|i: int| 0 <= i < s.len() ==> keep(#[trigger] s[i]),
    ensures
        s.filter(keep) == s,
    decreases s.len(),
{
    reveal_with_fuel(Seq::<_>::filter, 1);
    if s.len() > 0 {
        lemma_filter_keeps_all(s.drop_last(), keep);
        assert(s.drop_last().push(s.last()) =~= s);
    }
}

/// Removing the events of a class leaves none of them, and removing them
/// again changes nothing.
pub proof fn lemma_filter_by_name_idempotent(trace: Seq<Seq<char>>, name: Seq<char>)
    ensures
        !without_name(trace, name).contains(name),
        without_name(without_name(trace, name), name) == without_name(trace, name),
{
    let keep = other_than(name);
    broadcast use vstd::seq_lib::group_filter_ensures;
    assert forall|i: int| 0 <= i < trace.filter(keep).len() implies keep(#[trigger] trace.filter(keep)[i]) by {}
    lemma_filter_keeps_all(trace.filter(keep), keep);
}

/// Removing the events of a set of classes leaves none of them, and
/// removing them again changes nothing.
pub proof fn lemma_filter_by_names_idempotent(trace: Seq<Seq<char>>, names: Seq<Seq<char>>)
    ensures
        forall|n: Seq<char>| names.contains(n) ==> !without_names(trace, names).contains(n),
        without_names(without_names(trace, names), names) == without_names(trace, names),
{
    let keep = |n: Seq<char>| !names.contains(n);
    broadcast use vstd::seq_lib::group_filter_ensures;
    assert forall|i: int| 0 <= i < trace.filter(keep).len() implies keep(#[trigger] trace.filter(keep)[i]) by {}
    lemma_filter_keeps_all(trace.filter(keep), keep);
}

} // verus!
