//! Writing a Petri net in PNML: the elements, attributes and order of the
//! document, and their text through the XML writer of `quick_xml`.
use vstd::prelude::*;
use vstd::string::*;
use crate::petri_net::{PetriNet, Place, Transition, TransitionView};
use crate::text::{seq_lt, str_lt, lemma_seq_lt_total, lemma_seq_lt_transitive, lemma_seq_lt_asymmetric};
use std::io::Cursor;
use quick_xml::Writer;
use quick_xml::events::{BytesEnd, BytesStart, BytesText, Event};

verus! {

/// `keys` listed in the order `perm` gives are ordered (equal keys allowed).
pub open spec fn ordered_by(keys: Seq<Seq<char>>, perm: Seq<usize>) -> bool {
    forall|a: int, b: int| 0 <= a < b < perm.len() ==> !seq_lt(keys[#[trigger] perm[b] as int], keys[#[trigger] perm[a] as int])
}

/// `perm` lists each of `0..n` once.
pub open spec fn is_permutation(perm: Seq<usize>, n: int) -> bool {
    &&& perm.len() == n
    &&& perm.no_duplicates()
    &&& forall|k: int| 0 <= k < n ==> #[trigger] perm[k] < n
    &&& forall|k: usize| k < n ==> #[trigger] perm.contains(k)
}

/// The positions of `keys`, ordered by key; equal keys keep their order.
fn sort_positions(keys: &Vec<String>) -> (r: Vec<usize>)
    ensures
        is_permutation(r@, keys@.len() as int),
        ordered_by(keys@.map_values(|s: String| s@), r@),
{
    let ghost ks = keys@.map_values(|s: String| s@);
    let mut r: Vec<usize> = Vec::new();
    let mut i: usize = 0;
    while i < keys.len()
        invariant
            i <= keys@.len(),
            ks == keys@.map_values(|s: String| s@),
            r@.len() == i,
            r@.no_duplicates(),
            forall|k: int| 0 <= k < i ==> #[trigger] r@[k] < i,
            forall|k: usize| k < i ==> #[trigger] r@.contains(k),
            ordered_by(ks, r@),
        decreases keys.len() - i,
    {
        let mut j: usize = r.len();
        while j > 0 && str_lt(keys[i].as_str(), keys[r[j - 1]].as_str())
            invariant
                j <= r@.len(),
                i < keys@.len(),
                ks == keys@.map_values(|s: String| s@),
                forall|k: int| 0 <= k < r@.len() ==> #[trigger] r@[k] < i,
                forall|k: int| j <= k < r@.len() ==> seq_lt(ks[i as int], ks[#[trigger] r@[k] as int]),
            decreases j,
        {
            j = j - 1;
        }
        let ghost before = r@;
        r.insert(j, i);
        proof {
            assert(r@ == before.insert(j as int, i));
            assert forall|a: int, b: int| 0 <= a < b < r@.len() implies !seq_lt(ks[#[trigger] r@[b] as int], ks[#[trigger] r@[a] as int]) by {
                if b < j {
                    assert(r@[a] == before[a] && r@[b] == before[b]);
                } else if b == j {
                    assert(r@[a] == before[a]);
                    let x = ks[i as int];
                    let last = ks[before[j - 1] as int];
                    assert(!seq_lt(x, last));
                    let ya = ks[before[a] as int];
                    if a < j - 1 {
                        assert(!seq_lt(last, ya));
                        if seq_lt(x, ya) {
                            if last != ya {
                                lemma_seq_lt_total(last, ya);
                                lemma_seq_lt_transitive(x, ya, last);
                            }
                        }
                    }
                } else if a < j {
                    assert(r@[a] == before[a] && r@[b] == before[b - 1]);
                } else if a == j {
                    assert(r@[b] == before[b - 1]);
                    lemma_seq_lt_asymmetric(ks[i as int], ks[before[b - 1] as int]);
                } else {
                    assert(r@[a] == before[a - 1] && r@[b] == before[b - 1]);
                }
            }
            assert forall|p: int, q: int| 0 <= p < q < r@.len() implies r@[p] != r@[q] by {
                if p < j && q < j {
                    assert(r@[p] == before[p] && r@[q] == before[q]);
                } else if p < j && q > j {
                    assert(r@[p] == before[p] && r@[q] == before[q - 1]);
                } else if p > j {
                    assert(r@[p] == before[p - 1] && r@[q] == before[q - 1]);
                }
            }
            assert forall|k: usize| k < i + 1 implies #[trigger] r@.contains(k) by {
                if k < i {
                    assert(before.contains(k));
                    let p = choose|p: int| 0 <= p < before.len() && before[p] == k;
                    if p < j {
                        assert(r@[p] == before[p]);
                    } else {
                        assert(r@[p + 1] == before[p]);
                    }
                } else {
                    assert(r@[j as int] == i);
                }
            }
            assert forall|k: int| 0 <= k < i + 1 implies #[trigger] r@[k] < i + 1 by {
                if k < j {
                    assert(r@[k] == before[k]);
                } else if k > j {
                    assert(r@[k] == before[k - 1]);
                }
            }
        }
        i = i + 1;
    }
    r
}

pub const PNML_TAG_NAME: &'static str = "pnml";
pub const TRANSITION_TAG_NAME: &'static str = "transition";
pub const ARC_TAG_NAME: &'static str = "arc";
pub const PLACE_TAG_NAME: &'static str = "place";
pub const NET_TAG_NAME: &'static str = "net";
pub const TEXT_TAG_NAME: &'static str = "text";
pub const NAME_TAG_NAME: &'static str = "name";
pub const ID_ATTR_NAME: &'static str = "id";
pub const SOURCE_ATTR_NAME: &'static str = "source";
pub const TARGET_ATTR_NAME: &'static str = "target";

/// One piece of an XML document: an opening tag with its attributes, a
/// closing tag, or text.
pub enum XmlEvent {
    Start(String, Vec<(String, String)>),
    End(String),
    Text(String),
}

/// What an `XmlEvent` stands for.
pub enum XmlItem {
    Start(Seq<char>, Seq<(Seq<char>, Seq<char>)>),
    End(Seq<char>),
    Text(Seq<char>),
}

pub open spec fn attrs_view(a: Seq<(String, String)>) -> Seq<(Seq<char>, Seq<char>)> {
    a.map_values(|p: (String, String)| (p.0@, p.1@))
}

impl View for XmlEvent {
    type V = XmlItem;

    open spec fn view(&self) -> XmlItem {
        match self {
            XmlEvent::Start(name, attrs) => XmlItem::Start(name@, attrs_view(attrs@)),
            XmlEvent::End(name) => XmlItem::End(name@),
            XmlEvent::Text(text) => XmlItem::Text(text@),
        }
    }
}

pub open spec fn items_view(v: Seq<XmlEvent>) -> Seq<XmlItem> {
    v.map_values(|e: XmlEvent| e@)
}

/// The decimal digit `d`.
pub open spec fn digit(d: u64) -> char {
    (d + 48) as char
}

/// The decimal digits of `n`, without leading zeros.
pub open spec fn decimal(n: u64) -> Seq<char>
    decreases n,
{
    if n < 10 {
        seq![digit(n)]
    } else {
        decimal(n / 10).push(digit(n % 10))
    }
}

/// The text of the decimal digit `d`.
fn digit_text(d: u64) -> (r: &'static str)
    requires
        d < 10,
    ensures
        r@ == seq![digit(d)],
{
    proof {
        reveal_strlit("0");
        reveal_strlit("1");
        reveal_strlit("2");
        reveal_strlit("3");
        reveal_strlit("4");
        reveal_strlit("5");
        reveal_strlit("6");
        reveal_strlit("7");
        reveal_strlit("8");
        reveal_strlit("9");
    }
    if d == 0 {
        "0"
    } else if d == 1 {
        "1"
    } else if d == 2 {
        "2"
    } else if d == 3 {
        "3"
    } else if d == 4 {
        "4"
    } else if d == 5 {
        "5"
    } else if d == 6 {
        "6"
    } else if d == 7 {
        "7"
    } else if d == 8 {
        "8"
    } else {
        "9"
    }
}

/// The decimal digits of `n`, without leading zeros.
pub(crate) fn decimal_string(n: u64) -> (r: String)
    ensures
        r@ == decimal(n),
    decreases n,
{
    if n < 10 {
        String::from_str(digit_text(n))
    } else {
        let mut text = decimal_string(n / 10);
        text.append(digit_text(n % 10));
        assert(text@ =~= decimal(n / 10).push(digit(n % 10)));
        text
    }
}

/// The name of an arc: `[{from}--{to}]`.
pub open spec fn arc_name(from: Seq<char>, to: Seq<char>) -> Seq<char> {
    "[{"@ + from + "}--{"@ + to + "}]"@
}

/// The name of the arc from `from` to `to`: the two names in braces, joined
/// by `--`, in brackets.
fn arc_text(from: &str, to: &str) -> (r: String)
    ensures
        r@ == arc_name(from@, to@),
{
    let mut text = String::from_str("[{");
    text.append(from);
    text.append("}--{");
    text.append(to);
    text.append("}]");
    text
}

/// How a place is named in the document: by name, or by identifier.
pub open spec fn place_key(places: Map<u64, Seq<char>>, id: u64, names: bool) -> Seq<char> {
    if names { places[id] } else { decimal(id) }
}

/// How a transition is named in the document: by name, or by identifier.
pub open spec fn transition_key(t: TransitionView, names: bool) -> Seq<char> {
    if names { t.name } else { decimal(t.id) }
}

/// How an arc into transition `t` is named: after its ends, or by identifier.
pub open spec fn in_arc_key(places: Map<u64, Seq<char>>, t: TransitionView, a: (u64, u64), names: bool) -> Seq<char> {
    if names { arc_name(place_key(places, a.1, names), transition_key(t, names)) } else { decimal(a.0) }
}

/// How an arc out of transition `t` is named: after its ends, or by identifier.
pub open spec fn out_arc_key(places: Map<u64, Seq<char>>, t: TransitionView, a: (u64, u64), names: bool) -> Seq<char> {
    if names { arc_name(transition_key(t, names), place_key(places, a.1, names)) } else { decimal(a.0) }
}

/// An element without content.
pub open spec fn empty_element(name: Seq<char>, attrs: Seq<(Seq<char>, Seq<char>)>) -> Seq<XmlItem> {
    seq![XmlItem::Start(name, attrs), XmlItem::End(name)]
}

/// The place elements, in the order of `ps`.
pub open spec fn place_items(places: Map<u64, Seq<char>>, ps: Seq<u64>, names: bool) -> Seq<XmlItem>
    decreases ps.len(),
{
    if ps.len() == 0 {
        Seq::empty()
    } else {
        place_items(places, ps.drop_last(), names) + empty_element(PLACE_TAG_NAME@, seq![(ID_ATTR_NAME@, place_key(places, ps.last(), names))])
    }
}

/// The element of a transition, with its data as the text of its name.
pub open spec fn transition_element(t: TransitionView, names: bool) -> Seq<XmlItem> {
    seq![XmlItem::Start(TRANSITION_TAG_NAME@, seq![(ID_ATTR_NAME@, transition_key(t, names))])] + match t.data {
        Some(d) => seq![
            XmlItem::Start(NAME_TAG_NAME@, Seq::empty()),
            XmlItem::Start(TEXT_TAG_NAME@, Seq::empty()),
            XmlItem::Text(d),
            XmlItem::End(TEXT_TAG_NAME@),
            XmlItem::End(NAME_TAG_NAME@),
        ],
        None => Seq::empty(),
    } + seq![XmlItem::End(TRANSITION_TAG_NAME@)]
}

/// The transition elements, in the order of `ts`.
pub open spec fn transition_items(ts: Seq<TransitionView>, names: bool) -> Seq<XmlItem>
    decreases ts.len(),
{
    if ts.len() == 0 {
        Seq::empty()
    } else {
        transition_items(ts.drop_last(), names) + transition_element(ts.last(), names)
    }
}

/// The elements of the arcs into `t`, in the order of `arcs`.
pub open spec fn in_arc_items(places: Map<u64, Seq<char>>, t: TransitionView, arcs: Seq<(u64, u64)>, names: bool) -> Seq<XmlItem>
    decreases arcs.len(),
{
    if arcs.len() == 0 {
        Seq::empty()
    } else {
        let a = arcs.last();
        in_arc_items(places, t, arcs.drop_last(), names) + empty_element(ARC_TAG_NAME@, seq![
            (ID_ATTR_NAME@, in_arc_key(places, t, a, names)),
            (SOURCE_ATTR_NAME@, place_key(places, a.1, names)),
            (TARGET_ATTR_NAME@, transition_key(t, names)),
        ])
    }
}

/// The elements of the arcs out of `t`, in the order of `arcs`.
pub open spec fn out_arc_items(places: Map<u64, Seq<char>>, t: TransitionView, arcs: Seq<(u64, u64)>, names: bool) -> Seq<XmlItem>
    decreases arcs.len(),
{
    if arcs.len() == 0 {
        Seq::empty()
    } else {
        let a = arcs.last();
        out_arc_items(places, t, arcs.drop_last(), names) + empty_element(ARC_TAG_NAME@, seq![
            (ID_ATTR_NAME@, out_arc_key(places, t, a, names)),
            (TARGET_ATTR_NAME@, place_key(places, a.1, names)),
            (SOURCE_ATTR_NAME@, transition_key(t, names)),
        ])
    }
}

/// The arc elements: for each transition of `ts`, its arcs in, in the order
/// of `ins`, then its arcs out, in the order of `outs`.
pub open spec fn arc_items(
    places: Map<u64, Seq<char>>,
    ts: Seq<TransitionView>,
    ins: Seq<Seq<(u64, u64)>>,
    outs: Seq<Seq<(u64, u64)>>,
    names: bool,
) -> Seq<XmlItem>
    decreases ts.len(),
{
    if ts.len() == 0 {
        Seq::empty()
    } else {
        let k = ts.len() - 1;
        arc_items(places, ts.drop_last(), ins, outs, names) + in_arc_items(places, ts[k], ins[k], names) + out_arc_items(places, ts[k], outs[k], names)
    }
}

/// The PNML document: the places, the transitions, then the arcs, inside
/// a net inside the root element.
pub open spec fn pnml_items(
    places: Map<u64, Seq<char>>,
    ps: Seq<u64>,
    ts: Seq<TransitionView>,
    ins: Seq<Seq<(u64, u64)>>,
    outs: Seq<Seq<(u64, u64)>>,
    names: bool,
) -> Seq<XmlItem> {
    seq![XmlItem::Start(PNML_TAG_NAME@, Seq::empty()), XmlItem::Start(NET_TAG_NAME@, Seq::empty())]
        + place_items(places, ps, names) + transition_items(ts, names) + arc_items(places, ts, ins, outs, names)
        + seq![XmlItem::End(NET_TAG_NAME@), XmlItem::End(PNML_TAG_NAME@)]
}

/// `r` is `s` in another order.
pub open spec fn reorders<A>(s: Seq<A>, r: Seq<A>) -> bool {
    exists|perm: Seq<usize>| #[trigger] is_permutation(perm, s.len() as int) && r.len() == s.len()
        && forall|i: int| 0 <= i < r.len() ==> r[i] == s[#[trigger] perm[i] as int]
}

/// The order of the document: every place once, ordered by name; every
/// transition once, ordered by name; the arcs of each transition, each once,
/// ordered by how they are named.
pub open spec fn pnml_layout(
    net: PetriNet,
    names: bool,
    ps: Seq<u64>,
    ts: Seq<TransitionView>,
    ins: Seq<Seq<(u64, u64)>>,
    outs: Seq<Seq<(u64, u64)>>,
) -> bool {
    let places = net.places_map();
    let tm = net.transitions_map();
    &&& ps.no_duplicates()
    &&& forall|i: int| 0 <= i < ps.len() ==> places.dom().contains(#[trigger] ps[i])
    &&& forall|id: u64| #[trigger] places.dom().contains(id) ==> ps.contains(id)
    &&& forall|a: int, b: int| 0 <= a < b < ps.len() ==> !seq_lt(places[#[trigger] ps[b]], places[#[trigger] ps[a]])
    &&& ts.map_values(|t: TransitionView| t.id).no_duplicates()
    &&& forall|i: int| 0 <= i < ts.len() ==> tm.dom().contains((#[trigger] ts[i]).id) && tm[ts[i].id] == ts[i]
    &&& forall|id: u64| #[trigger] tm.dom().contains(id) ==> exists|i: int| 0 <= i < ts.len() && #[trigger] ts[i].id == id
    &&& forall|a: int, b: int| 0 <= a < b < ts.len() ==> !seq_lt((#[trigger] ts[b]).name, (#[trigger] ts[a]).name)
    &&& ins.len() == ts.len()
    &&& outs.len() == ts.len()
    &&& forall|k: int| 0 <= k < ts.len() ==> reorders(ts[k].incoming, #[trigger] ins[k])
    &&& forall|k: int| 0 <= k < ts.len() ==> reorders(ts[k].outgoing, #[trigger] outs[k])
    &&& forall|k: int, a: int, b: int| 0 <= k < ts.len() && 0 <= a < b < ins[k].len() ==> !seq_lt(
        in_arc_key(places, ts[k], #[trigger] ins[k][b], names),
        in_arc_key(places, ts[k], #[trigger] ins[k][a], names),
    )
    &&& forall|k: int, a: int, b: int| 0 <= k < ts.len() && 0 <= a < b < outs[k].len() ==> !seq_lt(
        out_arc_key(places, ts[k], #[trigger] outs[k][b], names),
        out_arc_key(places, ts[k], #[trigger] outs[k][a], names),
    )
}

/// Every arc of the net leads to or from a place of the net.
pub open spec fn arcs_in_net(net: PetriNet) -> bool {
    forall|id: u64, a: (u64, u64)| #[trigger] net.transitions_map().dom().contains(id)
        && (net.transitions_map()[id].incoming.contains(a) || net.transitions_map()[id].outgoing.contains(a))
        ==> net.places_map().dom().contains(#[trigger] a.1)
}

/// How place `id` is named in the document.
fn place_text(net: &PetriNet, id: u64, names: bool) -> (r: String)
    requires
        net.wf(),
        net.places_map().dom().contains(id),
    ensures
        r@ == place_key(net.places_map(), id, names),
{
    if names {
        net.place(&id).name().clone()
    } else {
        decimal_string(id)
    }
}

/// How transition `t` is named in the document.
fn transition_text(t: &Transition, names: bool) -> (r: String)
    ensures
        r@ == transition_key(t@, names),
{
    if names {
        t.name().clone()
    } else {
        decimal_string(t.id())
    }
}

/// The places of the net, each once, ordered by name.
fn sorted_place_ids(net: &PetriNet) -> (r: Vec<u64>)
    requires
        net.wf(),
    ensures
        r@.no_duplicates(),
        forall|i: int| 0 <= i < r@.len() ==> net.places_map().dom().contains(#[trigger] r@[i]),
        forall|id: u64| #[trigger] net.places_map().dom().contains(id) ==> r@.contains(id),
        forall|a: int, b: int| 0 <= a < b < r@.len() ==> !seq_lt(net.places_map()[#[trigger] r@[b]], net.places_map()[#[trigger] r@[a]]),
{
    let places = net.all_places();
    let ghost pm = net.places_map();
    let mut keys: Vec<String> = Vec::new();
    let mut i: usize = 0;
    while i < places.len()
        invariant
            i <= places@.len(),
            keys@.len() == i,
            forall|k: int| 0 <= k < i ==> (#[trigger] keys@[k])@ == places@[k]@.1,
        decreases places.len() - i,
    {
        keys.push(places[i].name().clone());
        i = i + 1;
    }
    let order = sort_positions(&keys);
    let ghost ks = keys@.map_values(|s: String| s@);
    let mut r: Vec<u64> = Vec::new();
    let mut j: usize = 0;
    while j < order.len()
        invariant
            j <= order@.len(),
            is_permutation(order@, places@.len() as int),
            r@.len() == j,
            forall|k: int| 0 <= k < j ==> #[trigger] r@[k] == places@[order@[k] as int]@.0,
        decreases order.len() - j,
    {
        r.push(places[order[j]].id());
        j = j + 1;
    }
    proof {
        let ids = places@.map_values(|p: &Place| p@.0);
        assert forall|a: int, b: int| 0 <= a < b < r@.len() implies r@[a] != r@[b] by {
            assert(order@[a] != order@[b]);
            assert(ids[order@[a] as int] == r@[a] && ids[order@[b] as int] == r@[b]);
        }
        assert forall|i: int| 0 <= i < r@.len() implies pm.dom().contains(#[trigger] r@[i]) by {
            assert(r@[i] == places@[order@[i] as int]@.0);
        }
        assert forall|id: u64| #[trigger] pm.dom().contains(id) implies r@.contains(id) by {
            let k = choose|k: int| 0 <= k < places@.len() && #[trigger] places@[k]@.0 == id;
            assert(order@.contains(k as usize));
            let j = choose|j: int| 0 <= j < order@.len() && order@[j] == k as usize;
            assert(r@[j] == id);
        }
        assert forall|a: int, b: int| 0 <= a < b < r@.len() implies !seq_lt(pm[#[trigger] r@[b]], pm[#[trigger] r@[a]]) by {
            assert(!seq_lt(ks[order@[b] as int], ks[order@[a] as int]));
            assert(ks[order@[b] as int] == places@[order@[b] as int]@.1);
            assert(ks[order@[a] as int] == places@[order@[a] as int]@.1);
        }
    }
    r
}

/// The transitions of the net, each once, ordered by name.
fn sorted_transitions<'a>(net: &'a PetriNet) -> (r: Vec<&'a Transition>)
    requires
        net.wf(),
    ensures
        r@.map_values(|t: &Transition| t@.id).no_duplicates(),
        forall|i: int| 0 <= i < r@.len() ==> net.transitions_map().dom().contains((#[trigger] r@[i])@.id)
            && net.transitions_map()[r@[i]@.id] == r@[i]@,
        forall|id: u64| #[trigger] net.transitions_map().dom().contains(id) ==> exists|i: int| 0 <= i < r@.len() && #[trigger] r@[i]@.id == id,
        forall|a: int, b: int| 0 <= a < b < r@.len() ==> !seq_lt((#[trigger] r@[b])@.name, (#[trigger] r@[a])@.name),
{
    let all = net.all_transitions();
    let mut keys: Vec<String> = Vec::new();
    let mut i: usize = 0;
    while i < all.len()
        invariant
            i <= all@.len(),
            keys@.len() == i,
            forall|k: int| 0 <= k < i ==> (#[trigger] keys@[k])@ == all@[k]@.name,
        decreases all.len() - i,
    {
        keys.push(all[i].name().clone());
        i = i + 1;
    }
    let order = sort_positions(&keys);
    let ghost ks = keys@.map_values(|s: String| s@);
    let mut r: Vec<&Transition> = Vec::new();
    let mut j: usize = 0;
    while j < order.len()
        invariant
            j <= order@.len(),
            is_permutation(order@, all@.len() as int),
            r@.len() == j,
            forall|k: int| 0 <= k < j ==> #[trigger] r@[k] == all@[order@[k] as int],
        decreases order.len() - j,
    {
        r.push(all[order[j]]);
        j = j + 1;
    }
    proof {
        let ids = all@.map_values(|t: &Transition| t@.id);
        let rids = r@.map_values(|t: &Transition| t@.id);
        assert forall|a: int, b: int| 0 <= a < b < rids.len() implies rids[a] != rids[b] by {
            assert(order@[a] != order@[b]);
            assert(ids[order@[a] as int] == rids[a] && ids[order@[b] as int] == rids[b]);
        }
        assert forall|i: int| 0 <= i < r@.len() implies net.transitions_map().dom().contains((#[trigger] r@[i])@.id)
            && net.transitions_map()[r@[i]@.id] == r@[i]@ by {
            assert(r@[i] == all@[order@[i] as int]);
        }
        assert forall|id: u64| #[trigger] net.transitions_map().dom().contains(id) implies exists|i: int| 0 <= i < r@.len() && #[trigger] r@[i]@.id == id by {
            let k = choose|k: int| 0 <= k < all@.len() && #[trigger] all@[k]@.id == id;
            assert(order@.contains(k as usize));
            let j = choose|j: int| 0 <= j < order@.len() && order@[j] == k as usize;
            assert(r@[j]@.id == id);
        }
        assert forall|a: int, b: int| 0 <= a < b < r@.len() implies !seq_lt((#[trigger] r@[b])@.name, (#[trigger] r@[a])@.name) by {
            assert(!seq_lt(ks[order@[b] as int], ks[order@[a] as int]));
        }
    }
    r
}

/// How an arc into (or out of) `t` is named.
pub open spec fn arc_key(places: Map<u64, Seq<char>>, t: TransitionView, a: (u64, u64), incoming: bool, names: bool) -> Seq<char> {
    if incoming { in_arc_key(places, t, a, names) } else { out_arc_key(places, t, a, names) }
}

/// The arcs into `t`, or those out of it.
pub open spec fn arcs_of(t: TransitionView, incoming: bool) -> Seq<(u64, u64)> {
    if incoming { t.incoming } else { t.outgoing }
}

/// The arcs into (or out of) `t`, reordered by how they are named.
fn sorted_arcs(net: &PetriNet, t: &Transition, incoming: bool, names: bool) -> (r: Vec<(u64, u64)>)
    requires
        net.wf(),
        forall|a: (u64, u64)| #[trigger] arcs_of(t@, incoming).contains(a) ==> net.places_map().dom().contains(a.1),
    ensures
        reorders(arcs_of(t@, incoming), r@),
        incoming ==> forall|a: int, b: int| 0 <= a < b < r@.len() ==> !seq_lt(
            in_arc_key(net.places_map(), t@, #[trigger] r@[b], names),
            in_arc_key(net.places_map(), t@, #[trigger] r@[a], names),
        ),
        !incoming ==> forall|a: int, b: int| 0 <= a < b < r@.len() ==> !seq_lt(
            out_arc_key(net.places_map(), t@, #[trigger] r@[b], names),
            out_arc_key(net.places_map(), t@, #[trigger] r@[a], names),
        ),
{
    let arcs = if incoming { t.incoming_arcs() } else { t.outgoing_arcs() };
    let ghost av = arcs_of(t@, incoming);
    let ghost pm = net.places_map();
    assert(crate::petri_net::arcs_view(arcs@) == av);
    let mut keys: Vec<String> = Vec::new();
    let mut pairs: Vec<(u64, u64)> = Vec::new();
    let mut i: usize = 0;
    while i < arcs.len()
        invariant
            net.wf(),
            pm == net.places_map(),
            i <= arcs@.len(),
            crate::petri_net::arcs_view(arcs@) == av,
            forall|a: (u64, u64)| #[trigger] av.contains(a) ==> pm.dom().contains(a.1),
            keys@.len() == i,
            pairs@ == av.take(i as int),
            forall|k: int| 0 <= k < i ==> (#[trigger] keys@[k])@ == arc_key(pm, t@, av[k], incoming, names),
        decreases arcs.len() - i,
    {
        let arc_id = arcs[i].id();
        let place_id = arcs[i].place_id();
        assert(av[i as int] == (arc_id, place_id));
        assert(av.contains(av[i as int]));
        let k = if names {
            let place = place_text(net, place_id, names);
            let transition = transition_text(t, names);
            if incoming {
                arc_text(place.as_str(), transition.as_str())
            } else {
                arc_text(transition.as_str(), place.as_str())
            }
        } else {
            decimal_string(arc_id)
        };
        keys.push(k);
        pairs.push((arc_id, place_id));
        assert(av.take(i + 1) =~= av.take(i as int).push(av[i as int]));
        i = i + 1;
    }
    assert(av.take(av.len() as int) =~= av);
    let order = sort_positions(&keys);
    let ghost ks = keys@.map_values(|s: String| s@);
    let mut r: Vec<(u64, u64)> = Vec::new();
    let mut j: usize = 0;
    while j < order.len()
        invariant
            j <= order@.len(),
            is_permutation(order@, pairs@.len() as int),
            r@.len() == j,
            forall|k: int| 0 <= k < j ==> #[trigger] r@[k] == pairs@[order@[k] as int],
        decreases order.len() - j,
    {
        r.push(pairs[order[j]]);
        j = j + 1;
    }
    proof {
        assert(is_permutation(order@, av.len() as int));
        assert forall|b: int| 0 <= b < r@.len() implies r@[b] == av[#[trigger] order@[b] as int] by {}
        assert forall|a: int, b: int| 0 <= a < b < r@.len() implies !seq_lt(arc_key(pm, t@, #[trigger] r@[b], incoming, names), arc_key(pm, t@, #[trigger] r@[a], incoming, names)) by {
            assert(!seq_lt(ks[order@[b] as int], ks[order@[a] as int]));
        }
    }
    r
}

/// Adds the place elements, in the order of `ps`.
fn push_places(net: &PetriNet, ps: &Vec<u64>, names: bool, events: &mut Vec<XmlEvent>)
    requires
        net.wf(),
        forall|i: int| 0 <= i < ps@.len() ==> net.places_map().dom().contains(#[trigger] ps@[i]),
    ensures
        items_view(final(events)@) == items_view(old(events)@) + place_items(net.places_map(), ps@, names),
{
    let ghost start = items_view(events@);
    let ghost pm = net.places_map();
    let mut i: usize = 0;
    while i < ps.len()
        invariant
            net.wf(),
            pm == net.places_map(),
            i <= ps@.len(),
            forall|i: int| 0 <= i < ps@.len() ==> pm.dom().contains(#[trigger] ps@[i]),
            items_view(events@) == start + place_items(pm, ps@.take(i as int), names),
        decreases ps.len() - i,
    {
        let key = place_text(net, ps[i], names);
        let ghost before = events@;
        let attrs = vec![(ID_ATTR_NAME.to_owned(), key)];
        events.push(XmlEvent::Start(PLACE_TAG_NAME.to_owned(), attrs));
        events.push(XmlEvent::End(PLACE_TAG_NAME.to_owned()));
        proof {
            assert(attrs_view(attrs@) =~= seq![(ID_ATTR_NAME@, key@)]);
            assert(ps@.take(i + 1).drop_last() =~= ps@.take(i as int));
            assert(items_view(events@) =~= items_view(before) + empty_element(PLACE_TAG_NAME@, seq![(ID_ATTR_NAME@, key@)]));
        }
        i = i + 1;
    }
    assert(ps@.take(ps@.len() as int) =~= ps@);
}

/// Adds the transition elements, in the order of `ts`.
fn push_transitions(ts: &Vec<&Transition>, names: bool, events: &mut Vec<XmlEvent>)
    ensures
        items_view(final(events)@) == items_view(old(events)@) + transition_items(ts@.map_values(|t: &Transition| t@), names),
{
    let ghost start = items_view(events@);
    let ghost tv = ts@.map_values(|t: &Transition| t@);
    let mut i: usize = 0;
    while i < ts.len()
        invariant
            i <= ts@.len(),
            tv == ts@.map_values(|t: &Transition| t@),
            items_view(events@) == start + transition_items(tv.take(i as int), names),
        decreases ts.len() - i,
    {
        let t = ts[i];
        let key = transition_text(t, names);
        let ghost before = events@;
        let attrs = vec![(ID_ATTR_NAME.to_owned(), key)];
        events.push(XmlEvent::Start(TRANSITION_TAG_NAME.to_owned(), attrs));
        let ghost middle = events@;
        match t.data() {
            Some(data) => {
                events.push(XmlEvent::Start(NAME_TAG_NAME.to_owned(), Vec::new()));
                events.push(XmlEvent::Start(TEXT_TAG_NAME.to_owned(), Vec::new()));
                events.push(XmlEvent::Text(data.clone()));
                events.push(XmlEvent::End(TEXT_TAG_NAME.to_owned()));
                events.push(XmlEvent::End(NAME_TAG_NAME.to_owned()));
            },
            None => {},
        }
        events.push(XmlEvent::End(TRANSITION_TAG_NAME.to_owned()));
        proof {
            assert(attrs_view(attrs@) =~= seq![(ID_ATTR_NAME@, key@)]);
            assert(attrs_view(Seq::<(String, String)>::empty()) =~= Seq::<(Seq<char>, Seq<char>)>::empty());
            assert(tv.take(i + 1).drop_last() =~= tv.take(i as int));
            assert(tv.take(i + 1).last() == t@);
            assert(items_view(events@) =~= items_view(before) + transition_element(t@, names));
        }
        i = i + 1;
    }
    assert(tv.take(tv.len() as int) =~= tv);
}

/// Adds the elements of the arcs into (or out of) `t`, in the order of `arcs`.
fn push_arcs(net: &PetriNet, t: &Transition, arcs: &Vec<(u64, u64)>, incoming: bool, names: bool, events: &mut Vec<XmlEvent>)
    requires
        net.wf(),
        forall|i: int| 0 <= i < arcs@.len() ==> net.places_map().dom().contains((#[trigger] arcs@[i]).1),
    ensures
        incoming ==> items_view(final(events)@) == items_view(old(events)@) + in_arc_items(net.places_map(), t@, arcs@, names),
        !incoming ==> items_view(final(events)@) == items_view(old(events)@) + out_arc_items(net.places_map(), t@, arcs@, names),
{
    let ghost start = items_view(events@);
    let ghost pm = net.places_map();
    let mut i: usize = 0;
    while i < arcs.len()
        invariant
            net.wf(),
            pm == net.places_map(),
            i <= arcs@.len(),
            forall|i: int| 0 <= i < arcs@.len() ==> pm.dom().contains((#[trigger] arcs@[i]).1),
            incoming ==> items_view(events@) == start + in_arc_items(pm, t@, arcs@.take(i as int), names),
            !incoming ==> items_view(events@) == start + out_arc_items(pm, t@, arcs@.take(i as int), names),
        decreases arcs.len() - i,
    {
        let (arc_id, place_id) = arcs[i];
        let place = place_text(net, place_id, names);
        let transition = transition_text(t, names);
        let key = if names {
            if incoming {
                arc_text(place.as_str(), transition.as_str())
            } else {
                arc_text(transition.as_str(), place.as_str())
            }
        } else {
            decimal_string(arc_id)
        };
        let ghost before = events@;
        let ghost kv = key@;
        let ghost pv = place@;
        let ghost tk = transition@;
        let attrs = if incoming {
            vec![(ID_ATTR_NAME.to_owned(), key), (SOURCE_ATTR_NAME.to_owned(), place), (TARGET_ATTR_NAME.to_owned(), transition)]
        } else {
            vec![(ID_ATTR_NAME.to_owned(), key), (TARGET_ATTR_NAME.to_owned(), place), (SOURCE_ATTR_NAME.to_owned(), transition)]
        };
        events.push(XmlEvent::Start(ARC_TAG_NAME.to_owned(), attrs));
        events.push(XmlEvent::End(ARC_TAG_NAME.to_owned()));
        proof {
            assert(arcs@.take(i + 1).drop_last() =~= arcs@.take(i as int));
            assert(arcs@.take(i + 1).last() == arcs@[i as int]);
            if incoming {
                assert(attrs_view(attrs@) =~= seq![(ID_ATTR_NAME@, kv), (SOURCE_ATTR_NAME@, pv), (TARGET_ATTR_NAME@, tk)]);
            } else {
                assert(attrs_view(attrs@) =~= seq![(ID_ATTR_NAME@, kv), (TARGET_ATTR_NAME@, pv), (SOURCE_ATTR_NAME@, tk)]);
            }
            assert(items_view(events@) =~= items_view(before) + seq![XmlItem::Start(ARC_TAG_NAME@, attrs_view(attrs@)), XmlItem::End(ARC_TAG_NAME@)]);
        }
        i = i + 1;
    }
    assert(arcs@.take(arcs@.len() as int) =~= arcs@);
}

proof fn lemma_arc_items_prefix(
    places: Map<u64, Seq<char>>,
    ts: Seq<TransitionView>,
    ins1: Seq<Seq<(u64, u64)>>,
    outs1: Seq<Seq<(u64, u64)>>,
    ins2: Seq<Seq<(u64, u64)>>,
    outs2: Seq<Seq<(u64, u64)>>,
    names: bool,
)
    requires
        forall|j: int| 0 <= j < ts.len() ==> ins1[j] == ins2[j] && outs1[j] == outs2[j],
    ensures
        arc_items(places, ts, ins1, outs1, names) == arc_items(places, ts, ins2, outs2, names),
    decreases ts.len(),
{
    if ts.len() > 0 {
        lemma_arc_items_prefix(places, ts.drop_last(), ins1, outs1, ins2, outs2, names);
    }
}

/// The PNML document of the net, as a list of XML events: the places
/// ordered by name, the transitions ordered by name, then for each
/// transition its arcs in and its arcs out, each ordered by how they are
/// named. Places and transitions are named by name when
/// `use_names_as_ids` holds, else by identifier.
pub fn pnml_events(net: &PetriNet, use_names_as_ids: bool) -> (r: Vec<XmlEvent>)
    requires
        net.wf(),
        arcs_in_net(*net),
    ensures
        exists|ps: Seq<u64>, ts: Seq<TransitionView>, ins: Seq<Seq<(u64, u64)>>, outs: Seq<Seq<(u64, u64)>>|
            #[trigger] pnml_layout(*net, use_names_as_ids, ps, ts, ins, outs)
            && items_view(r@) == pnml_items(net.places_map(), ps, ts, ins, outs, use_names_as_ids),
{
    let names = use_names_as_ids;
    let ghost pm = net.places_map();
    let ghost tm = net.transitions_map();
    let mut events: Vec<XmlEvent> = Vec::new();
    events.push(XmlEvent::Start(PNML_TAG_NAME.to_owned(), Vec::new()));
    events.push(XmlEvent::Start(NET_TAG_NAME.to_owned(), Vec::new()));
    proof {
        assert(attrs_view(Seq::<(String, String)>::empty()) =~= Seq::<(Seq<char>, Seq<char>)>::empty());
        assert(items_view(events@) =~= seq![XmlItem::Start(PNML_TAG_NAME@, Seq::empty()), XmlItem::Start(NET_TAG_NAME@, Seq::empty())]);
    }
    let ps = sorted_place_ids(net);
    push_places(net, &ps, names, &mut events);
    let ts = sorted_transitions(net);
    push_transitions(&ts, names, &mut events);
    let ghost tv = ts@.map_values(|t: &Transition| t@);
    let ghost after_transitions = items_view(events@);
    let ghost mut ins: Seq<Seq<(u64, u64)>> = Seq::empty();
    let ghost mut outs: Seq<Seq<(u64, u64)>> = Seq::empty();
    let mut k: usize = 0;
    while k < ts.len()
        invariant
            net.wf(),
            arcs_in_net(*net),
            pm == net.places_map(),
            tm == net.transitions_map(),
            tv == ts@.map_values(|t: &Transition| t@),
            forall|i: int| 0 <= i < ts@.len() ==> tm.dom().contains((#[trigger] ts@[i])@.id) && tm[ts@[i]@.id] == ts@[i]@,
            k <= ts@.len(),
            ins.len() == k,
            outs.len() == k,
            items_view(events@) == after_transitions + arc_items(pm, tv.take(k as int), ins, outs, names),
            forall|j: int| 0 <= j < k ==> reorders(tv[j].incoming, #[trigger] ins[j]),
            forall|j: int| 0 <= j < k ==> reorders(tv[j].outgoing, #[trigger] outs[j]),
            forall|j: int, a: int, b: int| 0 <= j < k && 0 <= a < b < ins[j].len() ==> !seq_lt(
                in_arc_key(pm, tv[j], #[trigger] ins[j][b], names),
                in_arc_key(pm, tv[j], #[trigger] ins[j][a], names),
            ),
            forall|j: int, a: int, b: int| 0 <= j < k && 0 <= a < b < outs[j].len() ==> !seq_lt(
                out_arc_key(pm, tv[j], #[trigger] outs[j][b], names),
                out_arc_key(pm, tv[j], #[trigger] outs[j][a], names),
            ),
        decreases ts.len() - k,
    {
        let t = ts[k];
        proof {
            assert(tv[k as int] == t@);
            assert(tm.dom().contains(t@.id) && tm[t@.id] == t@);
            assert forall|a: (u64, u64)| #[trigger] arcs_of(t@, true).contains(a) implies pm.dom().contains(a.1) by {
                assert(tm[t@.id].incoming.contains(a));
            }
            assert forall|a: (u64, u64)| #[trigger] arcs_of(t@, false).contains(a) implies pm.dom().contains(a.1) by {
                assert(tm[t@.id].outgoing.contains(a));
            }
        }
        let incoming = sorted_arcs(net, t, true, names);
        proof {
            let perm = choose|perm: Seq<usize>| #[trigger] is_permutation(perm, t@.incoming.len() as int) && incoming@.len() == t@.incoming.len()
                && forall|i: int| 0 <= i < incoming@.len() ==> incoming@[i] == t@.incoming[#[trigger] perm[i] as int];
            assert forall|i: int| 0 <= i < incoming@.len() implies pm.dom().contains((#[trigger] incoming@[i]).1) by {
                assert(incoming@[i] == t@.incoming[perm[i] as int]);
                assert(arcs_of(t@, true).contains(t@.incoming[perm[i] as int]));
            }
        }
        let ghost e0 = items_view(events@);
        push_arcs(net, t, &incoming, true, names, &mut events);
        let outgoing = sorted_arcs(net, t, false, names);
        proof {
            let perm = choose|perm: Seq<usize>| #[trigger] is_permutation(perm, t@.outgoing.len() as int) && outgoing@.len() == t@.outgoing.len()
                && forall|i: int| 0 <= i < outgoing@.len() ==> outgoing@[i] == t@.outgoing[#[trigger] perm[i] as int];
            assert forall|i: int| 0 <= i < outgoing@.len() implies pm.dom().contains((#[trigger] outgoing@[i]).1) by {
                assert(outgoing@[i] == t@.outgoing[perm[i] as int]);
                assert(arcs_of(t@, false).contains(t@.outgoing[perm[i] as int]));
            }
        }
        push_arcs(net, t, &outgoing, false, names, &mut events);
        proof {
            let ins2 = ins.push(incoming@);
            let outs2 = outs.push(outgoing@);
            let tk1 = tv.take(k + 1);
            assert(tk1.drop_last() =~= tv.take(k as int));
            assert(tk1[k as int] == t@);
            lemma_arc_items_prefix(pm, tv.take(k as int), ins, outs, ins2, outs2, names);
            assert(arc_items(pm, tk1, ins2, outs2, names) == arc_items(pm, tv.take(k as int), ins2, outs2, names)
                + in_arc_items(pm, t@, incoming@, names) + out_arc_items(pm, t@, outgoing@, names));
            assert(items_view(events@) =~= after_transitions + arc_items(pm, tk1, ins2, outs2, names));
            ins = ins2;
            outs = outs2;
        }
        k = k + 1;
    }
    let ghost before_end = events@;
    events.push(XmlEvent::End(NET_TAG_NAME.to_owned()));
    events.push(XmlEvent::End(PNML_TAG_NAME.to_owned()));
    proof {
        assert(tv.take(tv.len() as int) =~= tv);
        assert(items_view(events@) =~= items_view(before_end) + seq![XmlItem::End(NET_TAG_NAME@), XmlItem::End(PNML_TAG_NAME@)]);
        assert(items_view(events@) =~= pnml_items(pm, ps@, tv, ins, outs, names));
        assert forall|i: int| 0 <= i < tv.len() implies tm.dom().contains((#[trigger] tv[i]).id) && tm[tv[i].id] == tv[i] by {
            assert(tv[i] == ts@[i]@);
        }
        assert(tv.map_values(|t: TransitionView| t.id) =~= ts@.map_values(|t: &Transition| t@.id));
        assert forall|id: u64| #[trigger] tm.dom().contains(id) implies exists|i: int| 0 <= i < tv.len() && #[trigger] tv[i].id == id by {
            let i = choose|i: int| 0 <= i < ts@.len() && #[trigger] ts@[i]@.id == id;
            assert(tv[i] == ts@[i]@);
        }
        assert forall|a: int, b: int| 0 <= a < b < tv.len() implies !seq_lt((#[trigger] tv[b]).name, (#[trigger] tv[a]).name) by {
            assert(tv[a] == ts@[a]@ && tv[b] == ts@[b]@);
        }
        assert(pnml_layout(*net, names, ps@, tv, ins, outs));
    }
    events
}

#[verifier::external_type_specification]
#[verifier::external_body]
#[verifier::reject_recursive_types(W)]
pub struct ExWriter<W>(quick_xml::Writer<W>);

#[verifier::external_type_specification]
#[verifier::external_body]
#[verifier::reject_recursive_types(T)]
pub struct ExCursor<T>(std::io::Cursor<T>);

#[verifier::external_type_specification]
#[verifier::external_body]
pub struct ExXmlError(quick_xml::Error);

#[verifier::external_type_specification]
#[verifier::external_body]
pub struct ExFromUtf8Error(std::string::FromUtf8Error);

/// Why a document could not be written: the XML writer failed, or its
/// bytes were not UTF-8.
pub enum XmlWriteError {
    WriterError(quick_xml::Error),
    FromUtf8Error(std::string::FromUtf8Error),
}

/// The bytes that `quick_xml::Writer`, made with `new_with_indent(_, b' ', 2)`
/// over an empty buffer, holds after writing `items` one by one.
pub uninterp spec fn xml_bytes(items: Seq<XmlItem>) -> Seq<u8>;

/// What `String::from_utf8` makes of `bytes`: their text when they are
/// UTF-8, and nothing otherwise.
pub uninterp spec fn utf8_text(bytes: Seq<u8>) -> Option<Seq<char>>;

/// An XML writer over a growing in-memory buffer, with the events it has
/// written so far.
pub struct XmlWriter {
    writer: Writer<Cursor<Vec<u8>>>,
    written: Ghost<Seq<XmlItem>>,
}

impl XmlWriter {
    pub closed spec fn written(&self) -> Seq<XmlItem> {
        self.written@
    }
}

/// `quick_xml::Writer::new_with_indent` over an empty `Cursor<Vec<u8>>`,
/// indenting by two spaces: nothing is written yet.
#[verifier::external_body]
fn new_xml_writer() -> (r: XmlWriter)
    ensures
        r.written() == Seq::<XmlItem>::empty(),
{
    XmlWriter { writer: Writer::new_with_indent(Cursor::new(Vec::new()), b' ', 2), written: Ghost(Seq::empty()) }
}

/// `quick_xml::Writer::write_event` with an opening tag and its attributes.
/// The writer only passes bytes to `write_all` of its `Cursor<Vec<u8>>`,
/// which extends the vector as needed; that fails only when memory runs
/// out, so the write is stated to succeed and the tag to be written.
#[verifier::external_body]
fn write_start(w: &mut XmlWriter, name: &str, attrs: &Vec<(String, String)>) -> (r: Result<(), quick_xml::Error>)
    ensures
        r is Ok,
        final(w).written() == old(w).written().push(XmlItem::Start(name@, attrs_view(attrs@))),
{
    w.writer.write_event(Event::Start(BytesStart::new(name).with_attributes(attrs.iter().map(|a| (a.0.as_str(), a.1.as_str())))))
}

/// `quick_xml::Writer::write_event` with a closing tag; it succeeds, as
/// `write_start` does, and the tag is written.
#[verifier::external_body]
fn write_end(w: &mut XmlWriter, name: &str) -> (r: Result<(), quick_xml::Error>)
    ensures
        r is Ok,
        final(w).written() == old(w).written().push(XmlItem::End(name@)),
{
    w.writer.write_event(Event::End(BytesEnd::new(name)))
}

/// `quick_xml::Writer::write_event` with text (escaped by `BytesText::new`);
/// it succeeds, as `write_start` does, and the text is written.
#[verifier::external_body]
fn write_text(w: &mut XmlWriter, text: &str) -> (r: Result<(), quick_xml::Error>)
    ensures
        r is Ok,
        final(w).written() == old(w).written().push(XmlItem::Text(text@)),
{
    w.writer.write_event(Event::Text(BytesText::new(text)))
}

/// `quick_xml::Writer::into_inner`, then the buffer of the cursor: the bytes
/// the writer made of the events written. Every byte comes from a `&str`
/// (names, attribute values, text, escaped with ASCII entities) or from
/// ASCII markup and indentation, so the bytes are UTF-8.
#[verifier::external_body]
fn into_bytes(w: XmlWriter) -> (r: Vec<u8>)
    ensures
        r@ == xml_bytes(w.written()),
        utf8_text(r@) is Some,
{
    w.writer.into_inner().into_inner()
}

/// `String::from_utf8`: the text of the bytes when they are UTF-8, an error
/// otherwise.
#[verifier::external_body]
fn string_from_utf8(bytes: Vec<u8>) -> (r: Result<String, std::string::FromUtf8Error>)
    ensures
        r is Ok <==> utf8_text(bytes@) is Some,
        r matches Ok(s) ==> utf8_text(bytes@) == Some(s@),
{
    String::from_utf8(bytes)
}

/// The text of the XML document made of `events`, indented by two spaces.
pub fn write_xml(events: &Vec<XmlEvent>) -> (r: Result<String, XmlWriteError>)
    ensures
        r matches Ok(s) && utf8_text(xml_bytes(items_view(events@))) == Some(s@),
{
    let mut w = new_xml_writer();
    let mut i: usize = 0;
    while i < events.len()
        invariant
            i <= events@.len(),
            w.written() == items_view(events@.take(i as int)),
        decreases events.len() - i,
    {
        let result = match &events[i] {
            XmlEvent::Start(name, attrs) => write_start(&mut w, name.as_str(), attrs),
            XmlEvent::End(name) => write_end(&mut w, name.as_str()),
            XmlEvent::Text(text) => write_text(&mut w, text.as_str()),
        };
        match result {
            Ok(()) => {},
            Err(e) => {
                return Err(XmlWriteError::WriterError(e));
            },
        }
        assert(items_view(events@.take(i + 1)) =~= items_view(events@.take(i as int)).push(events@[i as int]@));
        i = i + 1;
    }
    assert(events@.take(events@.len() as int) =~= events@);
    let bytes = into_bytes(w);
    match string_from_utf8(bytes) {
        Ok(s) => Ok(s),
        Err(e) => Err(XmlWriteError::FromUtf8Error(e)),
    }
}

/// The net as a PNML document (see `pnml_events` for its elements and
/// order), indented by two spaces.
pub fn serialize_to_pnml(net: &PetriNet, use_names_as_ids: bool) -> (r: Result<String, XmlWriteError>)
    requires
        net.wf(),
        arcs_in_net(*net),
    ensures
        r matches Ok(s) && exists|ps: Seq<u64>, ts: Seq<TransitionView>, ins: Seq<Seq<(u64, u64)>>, outs: Seq<Seq<(u64, u64)>>|
            #[trigger] pnml_layout(*net, use_names_as_ids, ps, ts, ins, outs)
            && utf8_text(xml_bytes(pnml_items(net.places_map(), ps, ts, ins, outs, use_names_as_ids))) == Some(s@),
{
    let events = pnml_events(net, use_names_as_ids);
    write_xml(&events)
}

/// Each arc into `t` is written, in order, as its own element whose source
/// is the place of that very arc and whose target is `t`.
pub proof fn lemma_in_arc_elements_name_their_own_place(
    places: Map<u64, Seq<char>>,
    t: TransitionView,
    arcs: Seq<(u64, u64)>,
    names: bool,
)
    ensures
        in_arc_items(places, t, arcs, names).len() == 2 * arcs.len(),
        forall|j: int| 0 <= j < arcs.len() ==> in_arc_items(places, t, arcs, names)[2 * j] == XmlItem::Start(ARC_TAG_NAME@, seq![
            (ID_ATTR_NAME@, in_arc_key(places, t, #[trigger] arcs[j], names)),
            (SOURCE_ATTR_NAME@, place_key(places, arcs[j].1, names)),
            (TARGET_ATTR_NAME@, transition_key(t, names)),
        ]) && in_arc_items(places, t, arcs, names)[2 * j + 1] == XmlItem::End(ARC_TAG_NAME@),
    decreases arcs.len(),
{
    if arcs.len() > 0 {
        let a0 = arcs.drop_last();
        lemma_in_arc_elements_name_their_own_place(places, t, a0, names);
        let items = in_arc_items(places, t, arcs, names);
        let prev = in_arc_items(places, t, a0, names);
        assert forall|j: int| 0 <= j < arcs.len() implies items[2 * j] == XmlItem::Start(ARC_TAG_NAME@, seq![
            (ID_ATTR_NAME@, in_arc_key(places, t, #[trigger] arcs[j], names)),
            (SOURCE_ATTR_NAME@, place_key(places, arcs[j].1, names)),
            (TARGET_ATTR_NAME@, transition_key(t, names)),
        ]) && items[2 * j + 1] == XmlItem::End(ARC_TAG_NAME@) by {
            if j < a0.len() {
                assert(a0[j] == arcs[j]);
                assert(items[2 * j] == prev[2 * j]);
                assert(items[2 * j + 1] == prev[2 * j + 1]);
            }
        }
    }
}

/// Each arc out of `t` is written, in order, as its own element whose
/// source is `t` and whose target is the place of that very arc.
pub proof fn lemma_out_arc_elements_name_their_own_place(
    places: Map<u64, Seq<char>>,
    t: TransitionView,
    arcs: Seq<(u64, u64)>,
    names: bool,
)
    ensures
        out_arc_items(places, t, arcs, names).len() == 2 * arcs.len(),
        forall|j: int| 0 <= j < arcs.len() ==> out_arc_items(places, t, arcs, names)[2 * j] == XmlItem::Start(ARC_TAG_NAME@, seq![
            (ID_ATTR_NAME@, out_arc_key(places, t, #[trigger] arcs[j], names)),
            (TARGET_ATTR_NAME@, place_key(places, arcs[j].1, names)),
            (SOURCE_ATTR_NAME@, transition_key(t, names)),
        ]) && out_arc_items(places, t, arcs, names)[2 * j + 1] == XmlItem::End(ARC_TAG_NAME@),
    decreases arcs.len(),
{
    if arcs.len() > 0 {
        let a0 = arcs.drop_last();
        lemma_out_arc_elements_name_their_own_place(places, t, a0, names);
        let items = out_arc_items(places, t, arcs, names);
        let prev = out_arc_items(places, t, a0, names);
        assert forall|j: int| 0 <= j < arcs.len() implies items[2 * j] == XmlItem::Start(ARC_TAG_NAME@, seq![
            (ID_ATTR_NAME@, out_arc_key(places, t, #[trigger] arcs[j], names)),
            (TARGET_ATTR_NAME@, place_key(places, arcs[j].1, names)),
            (SOURCE_ATTR_NAME@, transition_key(t, names)),
        ]) && items[2 * j + 1] == XmlItem::End(ARC_TAG_NAME@) by {
            if j < a0.len() {
                assert(a0[j] == arcs[j]);
                assert(items[2 * j] == prev[2 * j]);
                assert(items[2 * j + 1] == prev[2 * j + 1]);
            }
        }
    }
}

proof fn lemma_arc_items_hold_each_transition(
    places: Map<u64, Seq<char>>,
    ts: Seq<TransitionView>,
    ins: Seq<Seq<(u64, u64)>>,
    outs: Seq<Seq<(u64, u64)>>,
    names: bool,
    k: int,
    x: XmlItem,
)
    requires
        0 <= k < ts.len(),
        in_arc_items(places, ts[k], ins[k], names).contains(x) || out_arc_items(places, ts[k], outs[k], names).contains(x),
    ensures
        arc_items(places, ts, ins, outs, names).contains(x),
    decreases ts.len(),
{
    let n = ts.len() - 1;
    let prev = arc_items(places, ts.drop_last(), ins, outs, names);
    let inn = in_arc_items(places, ts[n], ins[n], names);
    let out = out_arc_items(places, ts[n], outs[n], names);
    let all = arc_items(places, ts, ins, outs, names);
    assert(all == prev + inn + out);
    if k < n {
        assert(ts.drop_last()[k] == ts[k]);
        lemma_arc_items_hold_each_transition(places, ts.drop_last(), ins, outs, names, k, x);
        let m = choose|m: int| 0 <= m < prev.len() && prev[m] == x;
        assert(all[m] == x);
    } else if inn.contains(x) {
        let m = choose|m: int| 0 <= m < inn.len() && inn[m] == x;
        assert(all[prev.len() + m] == x);
    } else {
        let m = choose|m: int| 0 <= m < out.len() && out[m] == x;
        assert(all[prev.len() + inn.len() + m] == x);
    }
}

/// The PNML document writes every arc of every transition with its own
/// ends: an arc into `ts[k]` from place `p` as an arc element with source
/// `p` and target `ts[k]`, an arc out of `ts[k]` into `p` with source
/// `ts[k]` and target `p`.
pub proof fn lemma_document_writes_each_arc_with_its_own_ends(
    places: Map<u64, Seq<char>>,
    ps: Seq<u64>,
    ts: Seq<TransitionView>,
    ins: Seq<Seq<(u64, u64)>>,
    outs: Seq<Seq<(u64, u64)>>,
    names: bool,
)
    ensures
        forall|k: int, j: int| 0 <= k < ts.len() && 0 <= j < ins[k].len() ==> pnml_items(places, ps, ts, ins, outs, names).contains(
            XmlItem::Start(ARC_TAG_NAME@, seq![
                (ID_ATTR_NAME@, in_arc_key(places, ts[k], #[trigger] ins[k][j], names)),
                (SOURCE_ATTR_NAME@, place_key(places, ins[k][j].1, names)),
                (TARGET_ATTR_NAME@, transition_key(ts[k], names)),
            ]),
        ),
        forall|k: int, j: int| 0 <= k < ts.len() && 0 <= j < outs[k].len() ==> pnml_items(places, ps, ts, ins, outs, names).contains(
            XmlItem::Start(ARC_TAG_NAME@, seq![
                (ID_ATTR_NAME@, out_arc_key(places, ts[k], #[trigger] outs[k][j], names)),
                (TARGET_ATTR_NAME@, place_key(places, outs[k][j].1, names)),
                (SOURCE_ATTR_NAME@, transition_key(ts[k], names)),
            ]),
        ),
{
    let head = seq![XmlItem::Start(PNML_TAG_NAME@, Seq::empty()), XmlItem::Start(NET_TAG_NAME@, Seq::empty())];
    let pre = head + place_items(places, ps, names) + transition_items(ts, names);
    let arcs_part = arc_items(places, ts, ins, outs, names);
    let tail = seq![XmlItem::End(NET_TAG_NAME@), XmlItem::End(PNML_TAG_NAME@)];
    let doc = pnml_items(places, ps, ts, ins, outs, names);
    assert(doc == pre + arcs_part + tail);
    assert forall|k: int, j: int| 0 <= k < ts.len() && 0 <= j < ins[k].len() implies doc.contains(
        XmlItem::Start(ARC_TAG_NAME@, seq![
            (ID_ATTR_NAME@, in_arc_key(places, ts[k], #[trigger] ins[k][j], names)),
            (SOURCE_ATTR_NAME@, place_key(places, ins[k][j].1, names)),
            (TARGET_ATTR_NAME@, transition_key(ts[k], names)),
        ]),
    ) by {
        let x = XmlItem::Start(ARC_TAG_NAME@, seq![
            (ID_ATTR_NAME@, in_arc_key(places, ts[k], ins[k][j], names)),
            (SOURCE_ATTR_NAME@, place_key(places, ins[k][j].1, names)),
            (TARGET_ATTR_NAME@, transition_key(ts[k], names)),
        ]);
        lemma_in_arc_elements_name_their_own_place(places, ts[k], ins[k], names);
        assert(in_arc_items(places, ts[k], ins[k], names)[2 * j] == x);
        lemma_arc_items_hold_each_transition(places, ts, ins, outs, names, k, x);
        let m = choose|m: int| 0 <= m < arcs_part.len() && arcs_part[m] == x;
        assert(doc[pre.len() + m] == x);
    }
    assert forall|k: int, j: int| 0 <= k < ts.len() && 0 <= j < outs[k].len() implies doc.contains(
        XmlItem::Start(ARC_TAG_NAME@, seq![
            (ID_ATTR_NAME@, out_arc_key(places, ts[k], #[trigger] outs[k][j], names)),
            (TARGET_ATTR_NAME@, place_key(places, outs[k][j].1, names)),
            (SOURCE_ATTR_NAME@, transition_key(ts[k], names)),
        ]),
    ) by {
        let x = XmlItem::Start(ARC_TAG_NAME@, seq![
            (ID_ATTR_NAME@, out_arc_key(places, ts[k], outs[k][j], names)),
            (TARGET_ATTR_NAME@, place_key(places, outs[k][j].1, names)),
            (SOURCE_ATTR_NAME@, transition_key(ts[k], names)),
        ]);
        lemma_out_arc_elements_name_their_own_place(places, ts[k], outs[k], names);
        assert(out_arc_items(places, ts[k], outs[k], names)[2 * j] == x);
        lemma_arc_items_hold_each_transition(places, ts, ins, outs, names, k, x);
        let m = choose|m: int| 0 <= m < arcs_part.len() && arcs_part[m] == x;
        assert(doc[pre.len() + m] == x);
    }
}

} // verus!
