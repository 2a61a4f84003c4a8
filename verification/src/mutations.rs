//! Changes to an event log: renaming events, removing the events a regular
//! expression matches, and splitting the log into its variants.
use vstd::prelude::*;
use crate::event_log::{Event, EventLog, Trace, events_view, traces_view};
use crate::text::str_eq;

verus! {

#[verifier::external_type_specification]
#[verifier::external_body]
pub struct ExRegex(regex::Regex);

#[verifier::external_type_specification]
#[verifier::external_body]
pub struct ExRegexError(regex::Error);

/// Whether `regex::Regex::new` accepts `pattern` (with the default size limits).
pub uninterp spec fn regex_compiles(pattern: Seq<char>) -> bool;

/// Whether the regex that `regex::Regex::new` compiles from `pattern`
/// matches somewhere in `text` (`regex::Regex::is_match`).
pub uninterp spec fn regex_match(pattern: Seq<char>, text: Seq<char>) -> bool;

/// A regular expression together with the pattern it was compiled from.
pub struct LogRegex {
    pattern: String,
    regex: regex::Regex,
}

impl LogRegex {
    /// The pattern the regex was compiled from.
    pub closed spec fn pattern(&self) -> Seq<char> {
        self.pattern@
    }

    /// The regex of `pattern`, or the error `regex::Regex::new` gives for it.
    pub fn new(pattern: &str) -> (r: Result<LogRegex, regex::Error>)
        ensures
            r is Ok <==> regex_compiles(pattern@),
            r matches Ok(x) ==> x.pattern() == pattern@,
    {
        compile_regex(pattern)
    }
}

/// `regex::Regex::new`: compiles `pattern` and keeps it beside the regex.
/// The result depends on the pattern alone; whether it compiles is named.
#[verifier::external_body]
fn compile_regex(pattern: &str) -> (r: Result<LogRegex, regex::Error>)
    ensures
        r is Ok <==> regex_compiles(pattern@),
        r matches Ok(x) ==> x.pattern() == pattern@,
{
    regex::Regex::new(pattern).map(|regex| LogRegex { pattern: pattern.to_string(), regex })
}

/// `regex::Regex::is_match`: whether the regex matches somewhere in `text`.
/// The regex was compiled from `regex.pattern()` (only `compile_regex`
/// makes a `LogRegex`), so the answer is named over the pattern and the text.
#[verifier::external_body]
fn regex_matches(regex: &LogRegex, text: &str) -> (r: bool)
    ensures
        r == regex_match(regex.pattern(), text@),
{
    regex.regex.is_match(text)
}

/// Which events of the log the regex of `pattern` matches.
pub open spec fn regex_flags(log: Seq<Seq<Seq<char>>>, pattern: Seq<char>) -> Seq<Seq<bool>> {
    log.map_values(|trace: Seq<Seq<char>>| trace.map_values(|name: Seq<char>| regex_match(pattern, name)))
}

/// The trace with the events whose flag is set removed.
pub open spec fn without_flagged(trace: Seq<Seq<char>>, flags: Seq<bool>) -> Seq<Seq<char>>
    decreases trace.len(),
{
    if trace.len() == 0 || flags.len() < trace.len() {
        trace
    } else {
        let rest = without_flagged(trace.drop_last(), flags.take(trace.len() - 1));
        if flags[trace.len() - 1] {
            rest
        } else {
            rest.push(trace.last())
        }
    }
}

/// The flags have the shape of the log: one per event.
pub open spec fn flags_fit(log: Seq<Seq<Seq<char>>>, flags: Seq<Seq<bool>>) -> bool {
    flags.len() == log.len() && forall|t: int| 0 <= t < log.len() ==> (#[trigger] flags[t]).len() == log[t].len()
}

/// Removes from each trace the events whose flag in `remove` is set.
pub fn filter_log_by_flags(log: &mut EventLog, remove: &Vec<Vec<bool>>)
    requires
        remove@.len() == old(log)@.len(),
        forall|t: int| 0 <= t < old(log)@.len() ==> (#[trigger] remove@[t])@.len() == old(log)@[t].len(),
    ensures
        final(log)@.len() == old(log)@.len(),
        forall|t: int| 0 <= t < old(log)@.len() ==> #[trigger] final(log)@[t] == without_flagged(old(log)@[t], remove@[t]@),
{
    let mut result = EventLog::empty();
    let traces = log.traces();
    let mut t: usize = 0;
    while t < traces.len()
        invariant
            traces_view(traces@) == old(log)@,
            remove@.len() == old(log)@.len(),
            forall|u: int| 0 <= u < old(log)@.len() ==> (#[trigger] remove@[u])@.len() == old(log)@[u].len(),
            t <= traces@.len(),
            result@.len() == t,
            forall|u: int| 0 <= u < t ==> #[trigger] result@[u] == without_flagged(old(log)@[u], remove@[u]@),
        decreases traces.len() - t,
    {
        let trace = &traces[t];
        let flags = &remove[t];
        assert(trace@ == old(log)@[t as int]);
        let mut kept = Trace::empty();
        let mut i: usize = 0;
        while i < trace.len()
            invariant
                i <= trace@.len(),
                flags@.len() == trace@.len(),
                kept@ == without_flagged(trace@.take(i as int), flags@.take(i as int)),
            decreases trace@.len() - i,
        {
            proof {
                let s = trace@.take(i + 1);
                assert(s.drop_last() =~= trace@.take(i as int));
                assert(flags@.take(i + 1).take(i as int) =~= flags@.take(i as int));
                assert(s.last() == trace@[i as int]);
            }
            if !flags[i] {
                kept.push(Event::new(trace.name_at(i).clone()));
            }
            i = i + 1;
        }
        proof {
            assert(trace@.take(trace@.len() as int) =~= trace@);
            assert(flags@.take(flags@.len() as int) =~= flags@);
        }
        result.push(kept);
        t = t + 1;
    }
    *log = result;
}

/// Removes every event whose name the regex matches.
pub fn filter_log_by_regex(log: &mut EventLog, regex: &LogRegex)
    ensures
        final(log)@.len() == old(log)@.len(),
        forall|t: int| 0 <= t < old(log)@.len()
            ==> #[trigger] final(log)@[t] == without_flagged(old(log)@[t], regex_flags(old(log)@, regex.pattern())[t]),
{
    let ghost flags = regex_flags(old(log)@, regex.pattern());
    let mut remove: Vec<Vec<bool>> = Vec::new();
    let traces = log.traces();
    let mut t: usize = 0;
    while t < traces.len()
        invariant
            traces_view(traces@) == old(log)@,
            flags == regex_flags(old(log)@, regex.pattern()),
            t <= traces@.len(),
            remove@.len() == t,
            forall|u: int| 0 <= u < t ==> (#[trigger] remove@[u])@ == flags[u],
        decreases traces.len() - t,
    {
        let trace = &traces[t];
        assert(trace@ == old(log)@[t as int]);
        let mut matched: Vec<bool> = Vec::new();
        let mut i: usize = 0;
        while i < trace.len()
            invariant
                i <= trace@.len(),
                matched@ == trace@.take(i as int).map_values(|name: Seq<char>| regex_match(regex.pattern(), name)),
            decreases trace@.len() - i,
        {
            matched.push(regex_matches(regex, trace.name_at(i).as_str()));
            assert(trace@.take(i + 1) =~= trace@.take(i as int).push(trace@[i as int]));
            i = i + 1;
        }
        assert(trace@.take(trace@.len() as int) =~= trace@);
        remove.push(matched);
        t = t + 1;
    }
    filter_log_by_flags(log, &remove);
}

/// The trace with the events whose flag is set renamed to `new_name`.
pub open spec fn renamed_flagged(trace: Seq<Seq<char>>, flags: Seq<bool>, new_name: Seq<char>) -> Seq<Seq<char>> {
    Seq::new(trace.len(), |i: int| if flags[i] { new_name } else { trace[i] })
}

/// Gives the name `new_name` to the events whose flag in `rename` is set.
pub fn rename_events_by_flags(log: &mut EventLog, new_name: &str, rename: &Vec<Vec<bool>>)
    requires
        rename@.len() == old(log)@.len(),
        forall|t: int| 0 <= t < old(log)@.len() ==> (#[trigger] rename@[t])@.len() == old(log)@[t].len(),
    ensures
        final(log)@.len() == old(log)@.len(),
        forall|t: int| 0 <= t < old(log)@.len() ==> #[trigger] final(log)@[t] == renamed_flagged(old(log)@[t], rename@[t]@, new_name@),
{
    let mut result = EventLog::empty();
    let traces = log.traces();
    let mut t: usize = 0;
    while t < traces.len()
        invariant
            traces_view(traces@) == old(log)@,
            rename@.len() == old(log)@.len(),
            forall|u: int| 0 <= u < old(log)@.len() ==> (#[trigger] rename@[u])@.len() == old(log)@[u].len(),
            t <= traces@.len(),
            result@.len() == t,
            forall|u: int| 0 <= u < t ==> #[trigger] result@[u] == renamed_flagged(old(log)@[u], rename@[u]@, new_name@),
        decreases traces.len() - t,
    {
        let trace = &traces[t];
        let flags = &rename[t];
        assert(trace@ == old(log)@[t as int]);
        let mut renamed = Trace::empty();
        let mut i: usize = 0;
        while i < trace.len()
            invariant
                i <= trace@.len(),
                flags@.len() == trace@.len(),
                renamed@ == renamed_flagged(trace@, flags@, new_name@).take(i as int),
            decreases trace@.len() - i,
        {
            let ghost before = renamed@;
            if flags[i] {
                renamed.push(Event::new(new_name.to_owned()));
            } else {
                renamed.push(Event::new(trace.name_at(i).clone()));
            }
            assert(renamed@ =~= renamed_flagged(trace@, flags@, new_name@).take(i + 1));
            i = i + 1;
        }
        assert(renamed@ =~= renamed_flagged(trace@, flags@, new_name@));
        result.push(renamed);
        t = t + 1;
    }
    *log = result;
}

/// The flags are answers `filter` may give for the events of `log`, event by event.
pub open spec fn filter_answers<F: Fn(&Event) -> bool>(log: EventLog, filter: F, flags: Seq<Seq<bool>>) -> bool {
    &&& flags_fit(log@, flags)
    &&& forall|t: int, i: int| 0 <= t < log@.len() && 0 <= i < log@[t].len() ==> filter.ensures(
        (&log.event_at(t, i),),
        #[trigger] flags[t][i],
    )
}

/// Gives the events that `filter` accepts the name `new_name`.
pub fn rename_events<F>(log: &mut EventLog, new_name: &str, filter: F)
    where F: Fn(&Event) -> bool,
    requires
        forall|t: int, i: int| 0 <= t < old(log)@.len() && 0 <= i < old(log)@[t].len() ==> filter.requires(
            (&old(log).event_at(t, i),),
        ),
    ensures
        final(log)@.len() == old(log)@.len(),
        exists|rename: Seq<Seq<bool>>| #[trigger] filter_answers(*old(log), filter, rename) && forall|t: int| 0 <= t < old(log)@.len()
            ==> #[trigger] final(log)@[t] == renamed_flagged(old(log)@[t], rename[t], new_name@),
{
    let mut rename: Vec<Vec<bool>> = Vec::new();
    let traces = log.traces();
    let mut t: usize = 0;
    while t < traces.len()
        invariant
            traces_view(traces@) == old(log)@,
            traces@ == old(log).traces_seq(),
            t <= traces@.len(),
            forall|t: int, i: int| 0 <= t < old(log)@.len() && 0 <= i < old(log)@[t].len() ==> filter.requires(
                (&old(log).event_at(t, i),),
            ),
            rename@.len() == t,
            forall|u: int| 0 <= u < t ==> (#[trigger] rename@[u])@.len() == old(log)@[u].len(),
            forall|u: int, i: int| 0 <= u < t && 0 <= i < old(log)@[u].len() ==> filter.ensures(
                (&old(log).event_at(u, i),),
                #[trigger] rename@[u]@[i],
            ),
        decreases traces.len() - t,
    {
        let trace = &traces[t];
        assert(trace@ == old(log)@[t as int]);
        let events = trace.events();
        let mut flags: Vec<bool> = Vec::new();
        let mut i: usize = 0;
        while i < events.len()
            invariant
                i <= events@.len(),
                events_view(events@) == trace@,
                trace@ == old(log)@[t as int],
                *trace == old(log).traces_seq()[t as int],
                t < old(log)@.len(),
                forall|k: int| 0 <= k < events@.len() ==> events@[k] == #[trigger] trace.event_at(k),
                forall|t: int, i: int| 0 <= t < old(log)@.len() && 0 <= i < old(log)@[t].len() ==> filter.requires(
                    (&old(log).event_at(t, i),),
                ),
                flags@.len() == i,
                forall|k: int| 0 <= k < i ==> filter.ensures((&old(log).event_at(t as int, k),), #[trigger] flags@[k]),
            decreases events.len() - i,
        {
            let event = &events[i];
            assert(*event == old(log).event_at(t as int, i as int));
            let b = filter(event);
            flags.push(b);
            i = i + 1;
        }
        let ghost before = rename@;
        rename.push(flags);
        proof {
            assert forall|u: int, i: int| 0 <= u < t + 1 && 0 <= i < old(log)@[u].len() implies filter.ensures(
                (&old(log).event_at(u, i),),
                #[trigger] rename@[u]@[i],
            ) by {
                if u < t {
                    assert(rename@[u] == before[u]);
                }
            }
        }
        t = t + 1;
    }
    let ghost flags = rename@.map_values(|f: Vec<bool>| f@);
    rename_events_by_flags(log, new_name, &rename);
    assert(filter_answers(*old(log), filter, flags));
}

/// Whether two traces have the same events, in the same order.
fn same_trace(a: &Trace, b: &Trace) -> (r: bool)
    ensures
        r == (a@ == b@),
{
    if a.len() != b.len() {
        return false;
    }
    let mut i: usize = 0;
    while i < a.len()
        invariant
            a@.len() == b@.len(),
            i <= a@.len(),
            forall|k: int| 0 <= k < i ==> a@[k] == b@[k],
        decreases a@.len() - i,
    {
        if !str_eq(a.name_at(i).as_str(), b.name_at(i).as_str()) {
            return false;
        }
        i = i + 1;
    }
    assert(a@ =~= b@);
    true
}

/// The indices `g` form a group of the variants of `log`: they are
/// increasing, and name equal traces.
pub open spec fn variant_group(log: Seq<Seq<Seq<char>>>, g: Seq<usize>) -> bool {
    &&& g.len() > 0
    &&& forall|p: int, q: int| 0 <= p < q < g.len() ==> g[p] < g[q]
    &&& forall|p: int| 0 <= p < g.len() ==> g[p] < log.len() && log[#[trigger] g[p] as int] == log[g[0] as int]
}

/// `groups` splits the first `n` traces of `log` into their variants: every
/// group holds equal traces, the groups are ordered by their first trace and
/// hold different traces, and every trace is in some group.
pub open spec fn variants_split(log: Seq<Seq<Seq<char>>>, groups: Seq<Seq<usize>>, n: int) -> bool {
    &&& forall|j: int| 0 <= j < groups.len() ==> variant_group(log, #[trigger] groups[j]) && groups[j].last() < n
    &&& forall|j: int, k: int| #![trigger groups[j], groups[k]] 0 <= j < k < groups.len() ==> groups[j][0] < groups[k][0]
        && log[groups[j][0] as int] != log[groups[k][0] as int]
    &&& forall|t: int| 0 <= t < n ==> #[trigger] in_some_group(groups, t)
}

/// Trace `t` is in one of the groups.
pub open spec fn in_some_group(groups: Seq<Seq<usize>>, t: int) -> bool {
    exists|j: int| 0 <= j < groups.len() && (#[trigger] groups[j]).contains(t as usize)
}

/// The group whose first trace equals trace `t`, if any.
fn find_group(traces: &Vec<Trace>, groups: &Vec<Vec<usize>>, t: usize) -> (r: Option<usize>)
    requires
        t < traces@.len(),
        forall|j: int| 0 <= j < groups@.len() ==> (#[trigger] groups@[j])@.len() > 0 && groups@[j]@[0] < traces@.len(),
    ensures
        r matches Some(j) ==> j < groups@.len() && traces@[groups@[j as int]@[0] as int]@ == traces@[t as int]@,
        r is None ==> forall|j: int| 0 <= j < groups@.len() ==> traces@[(#[trigger] groups@[j])@[0] as int]@ != traces@[t as int]@,
{
    let mut j: usize = 0;
    while j < groups.len()
        invariant
            t < traces@.len(),
            forall|j: int| 0 <= j < groups@.len() ==> (#[trigger] groups@[j])@.len() > 0 && groups@[j]@[0] < traces@.len(),
            j <= groups@.len(),
            forall|k: int| 0 <= k < j ==> traces@[(#[trigger] groups@[k])@[0] as int]@ != traces@[t as int]@,
        decreases groups.len() - j,
    {
        assert(groups@[j as int]@.len() > 0);
        let first = groups[j][0];
        if same_trace(&traces[first], &traces[t]) {
            return Some(j);
        }
        j = j + 1;
    }
    None
}

/// The traces of `log` grouped by variant: each group lists, in increasing
/// order, the indices of equal traces, and the groups come in the order of
/// their first trace.
pub fn split_by_traces(log: &EventLog) -> (r: Vec<Vec<usize>>)
    ensures
        variants_split(log@, r@.map_values(|g: Vec<usize>| g@), log@.len() as int),
{
    let traces = log.traces();
    let mut groups: Vec<Vec<usize>> = Vec::new();
    let mut t: usize = 0;
    while t < traces.len()
        invariant
            traces_view(traces@) == log@,
            t <= traces@.len(),
            variants_split(log@, groups@.map_values(|g: Vec<usize>| g@), t as int),
        decreases traces.len() - t,
    {
        let ghost gv = groups@.map_values(|g: Vec<usize>| g@);
        proof {
            assert forall|j: int| 0 <= j < groups@.len() implies (#[trigger] groups@[j])@.len() > 0 && groups@[j]@[0] < traces@.len() by {
                assert(gv[j] == groups@[j]@);
                assert(variant_group(log@, gv[j]));
            }
        }
        let found = find_group(traces, &groups, t);
        proof {
            if found is None {
                assert forall|k: int| 0 <= k < gv.len() implies log@[gv[k][0] as int] != log@[t as int] by {
                    assert(gv[k] == groups@[k]@);
                    assert(traces@[groups@[k]@[0] as int]@ == log@[groups@[k]@[0] as int]);
                }
            }
        }
        if let Some(j) = found {
            proof {
                assert(gv[j as int] == groups@[j as int]@);
                assert(variant_group(log@, gv[j as int]));
                assert(traces@[groups@[j as int]@[0] as int]@ == log@[groups@[j as int]@[0] as int]);
            }
            let ghost before = groups@;
            let mut g = groups.remove(j);
            g.push(t);
            groups.insert(j, g);
            proof {
                let nv = groups@.map_values(|g: Vec<usize>| g@);
                assert(nv =~= gv.update(j as int, gv[j as int].push(t as usize)));
                assert(variant_group(log@, gv[j as int]));
                assert(variant_group(log@, nv[j as int]));
                assert forall|u: int| 0 <= u < t + 1 implies #[trigger] in_some_group(nv, u) by {
                    if u < t {
                        assert(in_some_group(gv, u));
                        let k = choose|k: int| 0 <= k < gv.len() && (#[trigger] gv[k]).contains(u as usize);
                        if k == j {
                            let p = choose|p: int| 0 <= p < gv[k].len() && gv[k][p] == u as usize;
                            assert(nv[k][p] == u as usize);
                        }
                        assert(nv[k].contains(u as usize));
                    } else {
                        assert(nv[j as int].last() == t as usize);
                        assert(nv[j as int].contains(u as usize));
                    }
                }
            }
        } else {
            let ghost before = groups@;
            let mut g: Vec<usize> = Vec::new();
            g.push(t);
            groups.push(g);
            proof {
                let nv = groups@.map_values(|g: Vec<usize>| g@);
                assert(nv =~= gv.push(seq![t as usize]));
                assert forall|k: int| 0 <= k < gv.len() implies gv[k][0] < t && log@[gv[k][0] as int] != log@[t as int] by {
                    assert(variant_group(log@, gv[k]));
                    assert(gv[k][0] <= gv[k].last());
                }
                assert forall|u: int| 0 <= u < t + 1 implies #[trigger] in_some_group(nv, u) by {
                    if u < t {
                        assert(in_some_group(gv, u));
                        let k = choose|k: int| 0 <= k < gv.len() && (#[trigger] gv[k]).contains(u as usize);
                        assert(nv[k] == gv[k]);
                    } else {
                        assert(nv[gv.len() as int][0] == t as usize);
                        assert(nv[gv.len() as int].contains(u as usize));
                    }
                }
            }
        }
        t = t + 1;
    }
    groups
}

/// With no flag set, neither removing nor renaming by flags changes a trace.
pub proof fn lemma_no_flags_change_nothing(trace: Seq<Seq<char>>, flags: Seq<bool>, new_name: Seq<char>)
    requires
        flags.len() == trace.len(),
        forall|i: int| 0 <= i < flags.len() ==> !#[trigger] flags[i],
    ensures
        without_flagged(trace, flags) == trace,
        renamed_flagged(trace, flags, new_name) == trace,
    decreases trace.len(),
{
    assert(renamed_flagged(trace, flags, new_name) =~= trace);
    if trace.len() > 0 {
        let shorter = flags.take(trace.len() - 1);
        assert forall|i: int| 0 <= i < shorter.len() implies !#[trigger] shorter[i] by {
            assert(shorter[i] == flags[i]);
        }
        lemma_no_flags_change_nothing(trace.drop_last(), shorter, new_name);
        assert(trace.drop_last().push(trace.last()) =~= trace);
    }
}

/// Each event of `trace` beside its flag.
pub open spec fn tagged(trace: Seq<Seq<char>>, flags: Seq<bool>) -> Seq<(Seq<char>, bool)> {
    Seq::new(trace.len(), |i: int| (trace[i], flags[i]))
}

/// Filtering removes exactly the flagged events: what is left is the
/// subsequence, in order, of the events whose flag is not set, and there are
/// as many of them as unset flags.
pub proof fn lemma_filtering_keeps_exactly_the_unflagged(trace: Seq<Seq<char>>, flags: Seq<bool>)
    requires
        flags.len() == trace.len(),
    ensures
        without_flagged(trace, flags) == tagged(trace, flags).filter(|p: (Seq<char>, bool)| !p.1).map_values(
            |p: (Seq<char>, bool)| p.0,
        ),
        without_flagged(trace, flags).len() == flags.filter(|f: bool| !f).len(),
    decreases trace.len(),
{
    let keep = |p: (Seq<char>, bool)| !p.1;
    let name = |p: (Seq<char>, bool)| p.0;
    let unset = |f: bool| !f;
    let z = tagged(trace, flags);
    if trace.len() == 0 {
        reveal(Seq::filter);
        assert(z.filter(keep) =~= Seq::<(Seq<char>, bool)>::empty());
        assert(flags.filter(unset) =~= Seq::<bool>::empty());
        assert(without_flagged(trace, flags) =~= z.filter(keep).map_values(name));
    } else {
        let n = trace.len() - 1;
        let t0 = trace.drop_last();
        let f0 = flags.take(n);
        lemma_filtering_keeps_exactly_the_unflagged(t0, f0);
        let z0 = tagged(t0, f0);
        assert(z0 =~= z.drop_last());
        assert(z =~= z0.push(z.last()));
        assert(flags =~= f0.push(flags[n]));
        z0.lemma_filter_push(z.last(), keep);
        f0.lemma_filter_push(flags[n], unset);
        assert(z.last() == (trace.last(), flags[n]));
        if flags[n] {
            assert(z.filter(keep) == z0.filter(keep));
            assert(flags.filter(unset) == f0.filter(unset));
        } else {
            assert(z.filter(keep) == z0.filter(keep).push(z.last()));
            assert(z.filter(keep).map_values(name) =~= z0.filter(keep).map_values(name).push(trace.last()));
            assert(flags.filter(unset) == f0.filter(unset).push(flags[n]));
        }
    }
}

/// Renaming by flags gives the new name to exactly the flagged events and
/// keeps every other event as it was, in place.
pub proof fn lemma_renaming_replaces_exactly_the_flagged(trace: Seq<Seq<char>>, flags: Seq<bool>, new_name: Seq<char>)
    requires
        flags.len() == trace.len(),
    ensures
        renamed_flagged(trace, flags, new_name).len() == trace.len(),
        forall|i: int| 0 <= i < trace.len() && flags[i] ==> #[trigger] renamed_flagged(trace, flags, new_name)[i] == new_name,
        forall|i: int| 0 <= i < trace.len() && !flags[i] ==> #[trigger] renamed_flagged(trace, flags, new_name)[i] == trace[i],
{
}

/// Splitting into variants puts two traces in the same group exactly when
/// they are equal.
pub proof fn lemma_variants_group_exactly_equal_traces(log: Seq<Seq<Seq<char>>>, groups: Seq<Seq<usize>>, n: int)
    requires
        variants_split(log, groups, n),
        n <= log.len(),
    ensures
        forall|j: int, s: usize, t: usize| 0 <= j < groups.len() && t < n && (#[trigger] groups[j]).contains(s) && s < n
            ==> (groups[j].contains(t) <==> #[trigger] log[t as int] == #[trigger] log[s as int]),
{
    assert forall|j: int, s: usize, t: usize| 0 <= j < groups.len() && t < n && (#[trigger] groups[j]).contains(s) && s < n
        implies (groups[j].contains(t) <==> #[trigger] log[t as int] == #[trigger] log[s as int]) by {
        let g = groups[j];
        assert(variant_group(log, g));
        let ps = choose|p: int| 0 <= p < g.len() && g[p] == s;
        assert(log[g[ps] as int] == log[g[0] as int]);
        if g.contains(t) {
            let pt = choose|p: int| 0 <= p < g.len() && g[p] == t;
            assert(log[g[pt] as int] == log[g[0] as int]);
        }
        if log[t as int] == log[s as int] {
            assert(in_some_group(groups, t as int));
            let k = choose|k: int| 0 <= k < groups.len() && (#[trigger] groups[k]).contains((t as int) as usize);
            if k != j {
                let h = groups[k];
                assert(variant_group(log, h));
                let pk = choose|p: int| 0 <= p < h.len() && h[p] == t;
                assert(log[h[pk] as int] == log[h[0] as int]);
                if j < k {
                    assert(log[groups[j][0] as int] != log[groups[k][0] as int]);
                } else {
                    assert(log[groups[k][0] as int] != log[groups[j][0] as int]);
                }
            }
        }
    }
}

} // verus!
