//! Petri nets: places, transitions with their arcs, and markings.
use vstd::prelude::*;
use crate::text::str_eq;
use crate::count_map::lemma_no_dup_index;

verus! {

/// Hands out fresh identifiers for places, transitions and arcs.
pub struct IdGenerator {
    next: u64,
}

impl View for IdGenerator {
    type V = u64;

    closed spec fn view(&self) -> u64 {
        self.next
    }
}

impl IdGenerator {
    pub fn new() -> (r: Self)
        ensures
            r@ == 0,
    {
        IdGenerator { next: 0 }
    }

    /// The next identifier; the counter wraps around after `u64::MAX`.
    pub fn next_id(&mut self) -> (r: u64)
        ensures
            r == old(self)@,
            final(self)@ == if old(self)@ < u64::MAX { (old(self)@ + 1) as u64 } else { 0 },
    {
        let r = self.next;
        self.next = if self.next < u64::MAX { self.next + 1 } else { 0 };
        r
    }
}

/// The name of a place created without one.
pub const EMPTY_PLACE_NAME: &'static str = "EmptyPlace";

pub struct Place {
    id: u64,
    name: String,
}

impl View for Place {
    type V = (u64, Seq<char>);

    closed spec fn view(&self) -> (u64, Seq<char>) {
        (self.id, self.name@)
    }
}

impl Place {
    /// A place named `EmptyPlace`.
    pub fn empty(ids: &mut IdGenerator) -> (r: Self)
        ensures
            r@ == (old(ids)@, EMPTY_PLACE_NAME@),
            final(ids)@ == if old(ids)@ < u64::MAX { (old(ids)@ + 1) as u64 } else { 0 },
    {
        Place { id: ids.next_id(), name: String::from_str(EMPTY_PLACE_NAME) }
    }

    /// An unnamed place (its name is `EmptyPlace`).
    pub fn new(ids: &mut IdGenerator) -> (r: Self)
        ensures
            r@ == (old(ids)@, EMPTY_PLACE_NAME@),
            final(ids)@ == if old(ids)@ < u64::MAX { (old(ids)@ + 1) as u64 } else { 0 },
    {
        Self::empty(ids)
    }

    pub fn with_name(name: String, ids: &mut IdGenerator) -> (r: Self)
        ensures
            r@ == (old(ids)@, name@),
            final(ids)@ == if old(ids)@ < u64::MAX { (old(ids)@ + 1) as u64 } else { 0 },
    {
        Place { id: ids.next_id(), name }
    }

    pub fn id(&self) -> (r: u64)
        ensures
            r == self@.0,
    {
        self.id
    }

    pub fn name(&self) -> (r: &String)
        ensures
            r@ == self@.1,
    {
        &self.name
    }
}

/// An arc between a transition and a place.
pub struct Arc {
    id: u64,
    place_id: u64,
}

impl View for Arc {
    type V = (u64, u64);

    closed spec fn view(&self) -> (u64, u64) {
        (self.id, self.place_id)
    }
}

pub open spec fn arcs_view(arcs: Seq<Arc>) -> Seq<(u64, u64)> {
    arcs.map_values(|a: Arc| a@)
}

impl Arc {
    pub fn new(place_id: u64, ids: &mut IdGenerator) -> (r: Self)
        ensures
            r@ == (old(ids)@, place_id),
            final(ids)@ == if old(ids)@ < u64::MAX { (old(ids)@ + 1) as u64 } else { 0 },
    {
        Arc { id: ids.next_id(), place_id }
    }

    pub fn id(&self) -> (r: u64)
        ensures
            r == self@.0,
    {
        self.id
    }

    pub fn place_id(&self) -> (r: u64)
        ensures
            r == self@.1,
    {
        self.place_id
    }
}

/// What a transition is: its identifier, name, data and arcs
/// (each arc as its identifier and its place).
pub struct TransitionView {
    pub id: u64,
    pub name: Seq<char>,
    pub data: Option<Seq<char>>,
    pub incoming: Seq<(u64, u64)>,
    pub outgoing: Seq<(u64, u64)>,
}

pub struct Transition {
    id: u64,
    name: String,
    incoming_arcs: Vec<Arc>,
    outgoing_arcs: Vec<Arc>,
    data: Option<String>,
}

pub open spec fn option_view(o: Option<String>) -> Option<Seq<char>> {
    match o {
        Some(s) => Some(s@),
        None => None,
    }
}

impl View for Transition {
    type V = TransitionView;

    closed spec fn view(&self) -> TransitionView {
        TransitionView {
            id: self.id,
            name: self.name@,
            data: option_view(self.data),
            incoming: arcs_view(self.incoming_arcs@),
            outgoing: arcs_view(self.outgoing_arcs@),
        }
    }
}

impl Transition {
    /// A transition without arcs.
    pub fn empty(name: String, data: Option<String>, ids: &mut IdGenerator) -> (r: Self)
        ensures
            r@.id == old(ids)@,
            r@.name == name@,
            r@.data == option_view(data),
            r@.incoming == Seq::<(u64, u64)>::empty(),
            r@.outgoing == Seq::<(u64, u64)>::empty(),
            final(ids)@ == if old(ids)@ < u64::MAX { (old(ids)@ + 1) as u64 } else { 0 },
    {
        let r = Transition {
            id: ids.next_id(),
            name,
            incoming_arcs: Vec::new(),
            outgoing_arcs: Vec::new(),
            data,
        };
        assert(r@.incoming =~= Seq::<(u64, u64)>::empty());
        assert(r@.outgoing =~= Seq::<(u64, u64)>::empty());
        r
    }

    pub fn add_incoming_arc(&mut self, place_id: u64, ids: &mut IdGenerator)
        ensures
            final(self)@ == (TransitionView { incoming: old(self)@.incoming.push((old(ids)@, place_id)), ..old(self)@ }),
            final(ids)@ == if old(ids)@ < u64::MAX { (old(ids)@ + 1) as u64 } else { 0 },
    {
        let arc = Arc::new(place_id, ids);
        self.incoming_arcs.push(arc);
        assert(arcs_view(self.incoming_arcs@) =~= old(self)@.incoming.push(arc@));
    }

    pub fn add_outgoing_arc(&mut self, place_id: u64, ids: &mut IdGenerator)
        ensures
            final(self)@ == (TransitionView { outgoing: old(self)@.outgoing.push((old(ids)@, place_id)), ..old(self)@ }),
            final(ids)@ == if old(ids)@ < u64::MAX { (old(ids)@ + 1) as u64 } else { 0 },
    {
        let arc = Arc::new(place_id, ids);
        self.outgoing_arcs.push(arc);
        assert(arcs_view(self.outgoing_arcs@) =~= old(self)@.outgoing.push(arc@));
    }

    pub fn remove_incoming_arc(&mut self, arc_index: usize) -> (r: Arc)
        requires
            arc_index < old(self)@.incoming.len(),
        ensures
            r@ == old(self)@.incoming[arc_index as int],
            final(self)@ == (TransitionView { incoming: old(self)@.incoming.remove(arc_index as int), ..old(self)@ }),
    {
        let r = self.incoming_arcs.remove(arc_index);
        assert(arcs_view(self.incoming_arcs@) =~= old(self)@.incoming.remove(arc_index as int));
        r
    }

    pub fn remove_outgoing_arc(&mut self, arc_index: usize) -> (r: Arc)
        requires
            arc_index < old(self)@.outgoing.len(),
        ensures
            r@ == old(self)@.outgoing[arc_index as int],
            final(self)@ == (TransitionView { outgoing: old(self)@.outgoing.remove(arc_index as int), ..old(self)@ }),
    {
        let r = self.outgoing_arcs.remove(arc_index);
        assert(arcs_view(self.outgoing_arcs@) =~= old(self)@.outgoing.remove(arc_index as int));
        r
    }

    pub fn id(&self) -> (r: u64)
        ensures
            r == self@.id,
    {
        self.id
    }

    pub fn name(&self) -> (r: &String)
        ensures
            r@ == self@.name,
    {
        &self.name
    }

    pub fn incoming_arcs(&self) -> (r: &Vec<Arc>)
        ensures
            arcs_view(r@) == self@.incoming,
    {
        &self.incoming_arcs
    }

    pub fn outgoing_arcs(&self) -> (r: &Vec<Arc>)
        ensures
            arcs_view(r@) == self@.outgoing,
    {
        &self.outgoing_arcs
    }

    pub fn data(&self) -> (r: Option<&String>)
        ensures
            match r {
                Some(s) => self@.data == Some(s@),
                None => self@.data is None,
            },
    {
        match &self.data {
            Some(s) => Some(s),
            None => None,
        }
    }
}

/// One marked place: its identifier and its number of tokens.
pub struct SingleMarking {
    place_id: u64,
    tokens_count: usize,
}

impl View for SingleMarking {
    type V = (u64, usize);

    closed spec fn view(&self) -> (u64, usize) {
        (self.place_id, self.tokens_count)
    }
}

impl SingleMarking {
    pub fn new(place_id: u64, tokens_count: usize) -> (r: Self)
        ensures
            r@ == (place_id, tokens_count),
    {
        SingleMarking { place_id, tokens_count }
    }

    pub fn place_id(&self) -> (r: u64)
        ensures
            r == self@.0,
    {
        self.place_id
    }

    pub fn tokens_count(&self) -> (r: usize)
        ensures
            r == self@.1,
    {
        self.tokens_count
    }

    pub fn clone_single(&self) -> (r: Self)
        ensures
            r@ == self@,
    {
        SingleMarking { place_id: self.place_id, tokens_count: self.tokens_count }
    }
}

pub open spec fn markings_view(m: Seq<SingleMarking>) -> Seq<(u64, usize)> {
    m.map_values(|s: SingleMarking| s@)
}

/// A marking: the marked places with their tokens.
pub struct Marking {
    active_places: Vec<SingleMarking>,
}

impl View for Marking {
    type V = Seq<(u64, usize)>;

    closed spec fn view(&self) -> Seq<(u64, usize)> {
        markings_view(self.active_places@)
    }
}

impl Marking {
    pub fn new(single_markings: Vec<SingleMarking>) -> (r: Self)
        ensures
            r@ == markings_view(single_markings@),
    {
        Marking { active_places: single_markings }
    }

    pub fn active_places(&self) -> (r: &Vec<SingleMarking>)
        ensures
            markings_view(r@) == self@,
    {
        &self.active_places
    }

    pub fn clone_marking(&self) -> (r: Self)
        ensures
            r@ == self@,
    {
        let mut v: Vec<SingleMarking> = Vec::new();
        let mut i: usize = 0;
        while i < self.active_places.len()
            invariant
                i <= self.active_places@.len(),
                v@.len() == i,
                markings_view(v@) == markings_view(self.active_places@).take(i as int),
            decreases self.active_places.len() - i,
        {
            v.push(self.active_places[i].clone_single());
            assert(markings_view(v@) =~= markings_view(self.active_places@).take(i + 1));
            i = i + 1;
        }
        assert(markings_view(self.active_places@).take(i as int) =~= markings_view(self.active_places@));
        Marking { active_places: v }
    }
}

pub type DefaultPetriNet = PetriNet;

/// A Petri net: places and transitions keyed by identifier, with an optional
/// initial and final marking.
pub struct PetriNet {
    places: Vec<Place>,
    transitions: Vec<Transition>,
    initial_marking: Option<Marking>,
    final_marking: Option<Marking>,
}

pub open spec fn marking_option_view(m: Option<Marking>) -> Option<Seq<(u64, usize)>> {
    match m {
        Some(m) => Some(m@),
        None => None,
    }
}

impl PetriNet {
    pub closed spec fn place_ids(&self) -> Seq<u64> {
        self.places@.map_values(|p: Place| p@.0)
    }

    pub closed spec fn transition_ids(&self) -> Seq<u64> {
        self.transitions@.map_values(|t: Transition| t@.id)
    }

    pub closed spec fn wf(&self) -> bool {
        &&& self.place_ids().no_duplicates()
        &&& self.transition_ids().no_duplicates()
    }

    /// The places: identifier to name.
    pub closed spec fn places_map(&self) -> Map<u64, Seq<char>> {
        Map::new(
            |id: u64| self.place_ids().contains(id),
            |id: u64| self.places@[self.place_ids().index_of(id)]@.1,
        )
    }

    /// The transitions by identifier.
    pub closed spec fn transitions_map(&self) -> Map<u64, TransitionView> {
        Map::new(
            |id: u64| self.transition_ids().contains(id),
            |id: u64| self.transitions@[self.transition_ids().index_of(id)]@,
        )
    }

    pub closed spec fn initial(&self) -> Option<Seq<(u64, usize)>> {
        marking_option_view(self.initial_marking)
    }

    pub closed spec fn final_(&self) -> Option<Seq<(u64, usize)>> {
        marking_option_view(self.final_marking)
    }

    pub fn empty() -> (r: Self)
        ensures
            r.wf(),
            r.places_map() == Map::<u64, Seq<char>>::empty(),
            r.transitions_map() == Map::<u64, TransitionView>::empty(),
            r.initial() is None,
            r.final_() is None,
    {
        let r = PetriNet { places: Vec::new(), transitions: Vec::new(), initial_marking: None, final_marking: None };
        assert(r.place_ids() =~= Seq::<u64>::empty());
        assert(r.transition_ids() =~= Seq::<u64>::empty());
        assert(r.places_map() =~= Map::<u64, Seq<char>>::empty());
        assert(r.transitions_map() =~= Map::<u64, TransitionView>::empty());
        r
    }

    fn find_place_index(&self, id: u64) -> (r: Option<usize>)
        requires
            self.wf(),
        ensures
            r matches Some(i) ==> i < self.places@.len() && self.place_ids()[i as int] == id
                && self.place_ids().index_of(id) == i,
            r is None ==> !self.place_ids().contains(id),
    {
        let mut i: usize = 0;
        while i < self.places.len()
            invariant
                i <= self.places@.len(),
                self.wf(),
                self.place_ids().len() == self.places@.len(),
                forall|k: int| 0 <= k < i ==> self.place_ids()[k] != id,
            decreases self.places.len() - i,
        {
            if self.places[i].id() == id {
                proof {
                    lemma_no_dup_index(self.place_ids(), i as int);
                }
                return Some(i);
            }
            i = i + 1;
        }
        None
    }

    fn find_transition_index(&self, id: u64) -> (r: Option<usize>)
        requires
            self.wf(),
        ensures
            r matches Some(i) ==> i < self.transitions@.len() && self.transition_ids()[i as int] == id
                && self.transition_ids().index_of(id) == i,
            r is None ==> !self.transition_ids().contains(id),
    {
        let mut i: usize = 0;
        while i < self.transitions.len()
            invariant
                i <= self.transitions@.len(),
                self.wf(),
                self.transition_ids().len() == self.transitions@.len(),
                forall|k: int| 0 <= k < i ==> self.transition_ids()[k] != id,
            decreases self.transitions.len() - i,
        {
            if self.transitions[i].id() == id {
                proof {
                    lemma_no_dup_index(self.transition_ids(), i as int);
                }
                return Some(i);
            }
            i = i + 1;
        }
        None
    }

    /// Adds (or replaces) a place; returns its identifier.
    pub fn add_place(&mut self, place: Place) -> (r: u64)
        requires
            old(self).wf(),
        ensures
            final(self).wf(),
            r == place@.0,
            final(self).places_map() == old(self).places_map().insert(place@.0, place@.1),
            final(self).transitions_map() == old(self).transitions_map(),
            final(self).initial() == old(self).initial(),
            final(self).final_() == old(self).final_(),
    {
        let id = place.id();
        let ghost old_ids = self.place_ids();
        let ghost old_map = self.places_map();
        let ghost pv = place@;
        match self.find_place_index(id) {
            Some(i) => {
                self.places.set(i, place);
                assert(self.place_ids() =~= old_ids);
                assert forall|k: u64| old_ids.contains(k) implies #[trigger] self.places_map()[k] == old_map.insert(pv.0, pv.1)[k] by {
                    lemma_no_dup_index(old_ids, old_ids.index_of(k));
                }
                assert(self.places_map() =~= old_map.insert(pv.0, pv.1));
            },
            None => {
                self.places.push(place);
                assert(self.place_ids() =~= old_ids.push(id));
                assert(self.place_ids().no_duplicates()) by {
                    assert forall|a: int, b: int| 0 <= a < b < self.place_ids().len() implies self.place_ids()[a] != self.place_ids()[b] by {
                        if b == old_ids.len() {
                            assert(old_ids.contains(old_ids[a]));
                        }
                    }
                }
                assert forall|k: u64| #[trigger] self.place_ids().contains(k) implies self.places_map()[k] == old_map.insert(pv.0, pv.1)[k] by {
                    if k == id {
                        lemma_no_dup_index(self.place_ids(), old_ids.len() as int);
                    } else {
                        let j = self.place_ids().index_of(k);
                        lemma_no_dup_index(self.place_ids(), j);
                        assert(old_ids[j] == k);
                        lemma_no_dup_index(old_ids, j);
                    }
                }
                assert forall|k: u64| #[trigger] self.place_ids().contains(k) <==> old_map.insert(pv.0, pv.1).dom().contains(k) by {
                    if self.place_ids().contains(k) && k != id {
                        let j = choose|j: int| 0 <= j < self.place_ids().len() && self.place_ids()[j] == k;
                        assert(old_ids[j] == k);
                    }
                    if old_ids.contains(k) {
                        let j = choose|j: int| 0 <= j < old_ids.len() && old_ids[j] == k;
                        assert(self.place_ids()[j] == k);
                    }
                    if k == id {
                        assert(self.place_ids()[old_ids.len() as int] == k);
                    }
                }
                assert(self.places_map() =~= old_map.insert(pv.0, pv.1));
            },
        }
        id
    }

    /// Adds (or replaces) a transition; returns its identifier.
    pub fn add_transition(&mut self, transition: Transition) -> (r: u64)
        requires
            old(self).wf(),
        ensures
            final(self).wf(),
            r == transition@.id,
            final(self).transitions_map() == old(self).transitions_map().insert(transition@.id, transition@),
            final(self).places_map() == old(self).places_map(),
            final(self).initial() == old(self).initial(),
            final(self).final_() == old(self).final_(),
    {
        let id = transition.id();
        let ghost old_ids = self.transition_ids();
        let ghost old_map = self.transitions_map();
        let ghost tv = transition@;
        match self.find_transition_index(id) {
            Some(i) => {
                self.transitions.set(i, transition);
                assert(self.transition_ids() =~= old_ids);
                assert forall|k: u64| old_ids.contains(k) implies #[trigger] self.transitions_map()[k] == old_map.insert(id, tv)[k] by {
                    lemma_no_dup_index(old_ids, old_ids.index_of(k));
                }
                assert(self.transitions_map() =~= old_map.insert(id, tv));
            },
            None => {
                self.transitions.push(transition);
                assert(self.transition_ids() =~= old_ids.push(id));
                assert(self.transition_ids().no_duplicates()) by {
                    assert forall|a: int, b: int| 0 <= a < b < self.transition_ids().len() implies self.transition_ids()[a] != self.transition_ids()[b] by {
                        if b == old_ids.len() {
                            assert(old_ids.contains(old_ids[a]));
                        }
                    }
                }
                assert forall|k: u64| #[trigger] self.transition_ids().contains(k) implies self.transitions_map()[k] == old_map.insert(id, tv)[k] by {
                    if k == id {
                        lemma_no_dup_index(self.transition_ids(), old_ids.len() as int);
                    } else {
                        let j = self.transition_ids().index_of(k);
                        lemma_no_dup_index(self.transition_ids(), j);
                        assert(old_ids[j] == k);
                        lemma_no_dup_index(old_ids, j);
                    }
                }
                assert forall|k: u64| #[trigger] self.transition_ids().contains(k) <==> old_map.insert(id, tv).dom().contains(k) by {
                    if self.transition_ids().contains(k) && k != id {
                        let j = choose|j: int| 0 <= j < self.transition_ids().len() && self.transition_ids()[j] == k;
                        assert(old_ids[j] == k);
                    }
                    if old_ids.contains(k) {
                        let j = choose|j: int| 0 <= j < old_ids.len() && old_ids[j] == k;
                        assert(self.transition_ids()[j] == k);
                    }
                    if k == id {
                        assert(self.transition_ids()[old_ids.len() as int] == k);
                    }
                }
                assert(self.transitions_map() =~= old_map.insert(id, tv));
            },
        }
        id
    }
}


/// Some arc of `arcs` touches the place `place_id`.
pub open spec fn touches(arcs: Seq<(u64, u64)>, place_id: u64) -> bool {
    exists|k: int| 0 <= k < arcs.len() && #[trigger] arcs[k].1 == place_id
}

/// Which transitions a query selects.
pub enum TransitionQuery {
    /// Transitions with the given name.
    ByName,
    /// Transitions with an arc into the place (its preset).
    IntoPlace,
    /// Transitions with an arc out of the place (its postset).
    OutOfPlace,
}

pub open spec fn selected(t: TransitionView, query: TransitionQuery, name: Seq<char>, place_id: u64) -> bool {
    match query {
        TransitionQuery::ByName => t.name == name,
        TransitionQuery::IntoPlace => touches(t.outgoing, place_id),
        TransitionQuery::OutOfPlace => touches(t.incoming, place_id),
    }
}

fn arcs_touch(arcs: &Vec<Arc>, place_id: u64) -> (r: bool)
    ensures
        r == touches(arcs_view(arcs@), place_id),
{
    let mut i: usize = 0;
    while i < arcs.len()
        invariant
            i <= arcs@.len(),
            forall|k: int| 0 <= k < i ==> arcs_view(arcs@)[k].1 != place_id,
        decreases arcs.len() - i,
    {
        if arcs[i].place_id() == place_id {
            assert(arcs_view(arcs@)[i as int].1 == place_id);
            return true;
        }
        i = i + 1;
    }
    false
}

impl PetriNet {
    proof fn lemma_transition_at(&self, i: int)
        requires
            self.wf(),
            0 <= i < self.transitions@.len(),
        ensures
            self.transitions_map().dom().contains(self.transitions@[i]@.id),
            self.transitions_map()[self.transitions@[i]@.id] == self.transitions@[i]@,
    {
        assert(self.transition_ids()[i] == self.transitions@[i]@.id);
        lemma_no_dup_index(self.transition_ids(), i);
    }

    proof fn lemma_transition_of(&self, id: u64) -> (i: int)
        requires
            self.wf(),
            self.transitions_map().dom().contains(id),
        ensures
            0 <= i < self.transitions@.len(),
            self.transitions@[i]@.id == id,
            self.transitions_map()[id] == self.transitions@[i]@,
    {
        let i = self.transition_ids().index_of(id);
        assert(self.transition_ids()[i] == id);
        i
    }

    proof fn lemma_place_at(&self, i: int)
        requires
            self.wf(),
            0 <= i < self.places@.len(),
        ensures
            self.places_map().dom().contains(self.places@[i]@.0),
            self.places_map()[self.places@[i]@.0] == self.places@[i]@.1,
    {
        assert(self.place_ids()[i] == self.places@[i]@.0);
        lemma_no_dup_index(self.place_ids(), i);
    }

    proof fn lemma_place_of(&self, id: u64) -> (i: int)
        requires
            self.wf(),
            self.places_map().dom().contains(id),
        ensures
            0 <= i < self.places@.len(),
            self.places@[i]@.0 == id,
            self.places_map()[id] == self.places@[i]@.1,
    {
        let i = self.place_ids().index_of(id);
        assert(self.place_ids()[i] == id);
        i
    }

    /// Every place, each once.
    pub fn all_places(&self) -> (r: Vec<&Place>)
        requires
            self.wf(),
        ensures
            r@.map_values(|p: &Place| p@.0).no_duplicates(),
            forall|i: int| 0 <= i < r@.len() ==> self.places_map().dom().contains(#[trigger] r@[i]@.0)
                && self.places_map()[r@[i]@.0] == r@[i]@.1,
            forall|id: u64| self.places_map().dom().contains(id) ==> exists|i: int| 0 <= i < r@.len() && #[trigger] r@[i]@.0 == id,
    {
        let mut r: Vec<&Place> = Vec::new();
        let mut i: usize = 0;
        while i < self.places.len()
            invariant
                self.wf(),
                i <= self.places@.len(),
                r@.len() == i,
                forall|k: int| 0 <= k < i ==> #[trigger] r@[k] == &self.places@[k],
            decreases self.places.len() - i,
        {
            r.push(&self.places[i]);
            i = i + 1;
        }
        proof {
            assert(r@.map_values(|p: &Place| p@.0) =~= self.place_ids());
            assert forall|k: int| 0 <= k < r@.len() implies self.places_map().dom().contains(#[trigger] r@[k]@.0)
                && self.places_map()[r@[k]@.0] == r@[k]@.1 by {
                self.lemma_place_at(k);
            }
            assert forall|id: u64| self.places_map().dom().contains(id) implies exists|k: int| 0 <= k < r@.len() && #[trigger] r@[k]@.0 == id by {
                let k = self.lemma_place_of(id);
                assert(r@[k]@.0 == id);
            }
        }
        r
    }

    /// Every transition, each once.
    pub fn all_transitions(&self) -> (r: Vec<&Transition>)
        requires
            self.wf(),
        ensures
            r@.map_values(|t: &Transition| t@.id).no_duplicates(),
            forall|i: int| 0 <= i < r@.len() ==> self.transitions_map().dom().contains(#[trigger] r@[i]@.id)
                && self.transitions_map()[r@[i]@.id] == r@[i]@,
            forall|id: u64| self.transitions_map().dom().contains(id) ==> exists|i: int| 0 <= i < r@.len() && #[trigger] r@[i]@.id == id,
    {
        let mut r: Vec<&Transition> = Vec::new();
        let mut i: usize = 0;
        while i < self.transitions.len()
            invariant
                self.wf(),
                i <= self.transitions@.len(),
                r@.len() == i,
                forall|k: int| 0 <= k < i ==> #[trigger] r@[k] == &self.transitions@[k],
            decreases self.transitions.len() - i,
        {
            r.push(&self.transitions[i]);
            i = i + 1;
        }
        proof {
            assert(r@.map_values(|t: &Transition| t@.id) =~= self.transition_ids());
            assert forall|k: int| 0 <= k < r@.len() implies self.transitions_map().dom().contains(#[trigger] r@[k]@.id)
                && self.transitions_map()[r@[k]@.id] == r@[k]@ by {
                self.lemma_transition_at(k);
            }
            assert forall|id: u64| self.transitions_map().dom().contains(id) implies exists|k: int| 0 <= k < r@.len() && #[trigger] r@[k]@.id == id by {
                let k = self.lemma_transition_of(id);
                assert(r@[k]@.id == id);
            }
        }
        r
    }

    /// The transitions that `query` selects, each once.
    fn select_transitions(&self, query: TransitionQuery, name: &str, place_id: u64) -> (r: Vec<&Transition>)
        requires
            self.wf(),
        ensures
            r@.map_values(|t: &Transition| t@.id).no_duplicates(),
            forall|i: int| 0 <= i < r@.len() ==> self.transitions_map().dom().contains(#[trigger] r@[i]@.id)
                && self.transitions_map()[r@[i]@.id] == r@[i]@ && selected(r@[i]@, query, name@, place_id),
            forall|id: u64| self.transitions_map().dom().contains(id) && selected(self.transitions_map()[id], query, name@, place_id)
                ==> exists|i: int| 0 <= i < r@.len() && #[trigger] r@[i]@.id == id,
    {
        let mut r: Vec<&Transition> = Vec::new();
        let ghost mut picked: Seq<int> = Seq::empty();
        let mut i: usize = 0;
        while i < self.transitions.len()
            invariant
                self.wf(),
                i <= self.transitions@.len(),
                r@.len() == picked.len(),
                forall|k: int| 0 <= k < picked.len() ==> 0 <= #[trigger] picked[k] < i && r@[k] == &self.transitions@[picked[k]]
                    && selected(self.transitions@[picked[k]]@, query, name@, place_id),
                forall|a: int, b: int| 0 <= a < b < picked.len() ==> #[trigger] picked[a] < #[trigger] picked[b],
                forall|j: int| 0 <= j < i && selected(self.transitions@[j]@, query, name@, place_id)
                    ==> exists|k: int| 0 <= k < picked.len() && #[trigger] picked[k] == j,
            decreases self.transitions.len() - i,
        {
            let t = &self.transitions[i];
            let hit = match query {
                TransitionQuery::ByName => str_eq(t.name().as_str(), name),
                TransitionQuery::IntoPlace => arcs_touch(t.outgoing_arcs(), place_id),
                TransitionQuery::OutOfPlace => arcs_touch(t.incoming_arcs(), place_id),
            };
            let ghost old_picked = picked;
            assert(hit == selected(self.transitions@[i as int]@, query, name@, place_id));
            if hit {
                r.push(t);
                proof {
                    picked = picked.push(i as int);
                }
            }
            proof {
                assert forall|j: int| 0 <= j < i + 1 && selected(self.transitions@[j]@, query, name@, place_id)
                    implies exists|k: int| 0 <= k < picked.len() && #[trigger] picked[k] == j by {
                    if j == i {
                        assert(picked[picked.len() - 1] == j);
                    } else {
                        let k = choose|k: int| 0 <= k < old_picked.len() && #[trigger] old_picked[k] == j;
                        assert(picked[k] == j);
                    }
                }
            }
            i = i + 1;
        }
        proof {
            let ids = r@.map_values(|t: &Transition| t@.id);
            assert forall|a: int, b: int| 0 <= a < ids.len() && 0 <= b < ids.len() && a != b implies ids[a] != ids[b] by {
                assert(self.transition_ids()[picked[a]] == ids[a]);
                assert(self.transition_ids()[picked[b]] == ids[b]);
                if a < b {
                    assert(picked[a] < picked[b]);
                } else {
                    assert(picked[b] < picked[a]);
                }
            }
            assert forall|k: int| 0 <= k < r@.len() implies self.transitions_map().dom().contains(#[trigger] r@[k]@.id)
                && self.transitions_map()[r@[k]@.id] == r@[k]@ && selected(r@[k]@, query, name@, place_id) by {
                self.lemma_transition_at(picked[k]);
            }
            assert forall|id: u64| self.transitions_map().dom().contains(id) && selected(self.transitions_map()[id], query, name@, place_id)
                implies exists|k: int| 0 <= k < r@.len() && #[trigger] r@[k]@.id == id by {
                let j = self.lemma_transition_of(id);
                let k = choose|k: int| 0 <= k < picked.len() && #[trigger] picked[k] == j;
                assert(r@[k]@.id == id);
            }
        }
        r
    }

    /// The transitions named `name`; `None` when there are none.
    pub fn find_all_transitions_by_name(&self, name: &str) -> (r: Option<Vec<&Transition>>)
        requires
            self.wf(),
        ensures
            r is None <==> !exists|id: u64| self.transitions_map().dom().contains(id) && #[trigger] self.transitions_map()[id].name == name@,
            r matches Some(v) ==> v@.map_values(|t: &Transition| t@.id).no_duplicates()
                && (forall|i: int| 0 <= i < v@.len() ==> self.transitions_map().dom().contains(#[trigger] v@[i]@.id)
                    && self.transitions_map()[v@[i]@.id] == v@[i]@ && v@[i]@.name == name@)
                && (forall|id: u64| self.transitions_map().dom().contains(id) && self.transitions_map()[id].name == name@
                    ==> exists|i: int| 0 <= i < v@.len() && #[trigger] v@[i]@.id == id),
    {
        let v = self.select_transitions(TransitionQuery::ByName, name, 0);
        if v.len() == 0 {
            proof {
                if exists|id: u64| self.transitions_map().dom().contains(id) && #[trigger] self.transitions_map()[id].name == name@ {
                    let id = choose|id: u64| self.transitions_map().dom().contains(id) && #[trigger] self.transitions_map()[id].name == name@;
                    assert(selected(self.transitions_map()[id], TransitionQuery::ByName, name@, 0));
                }
            }
            None
        } else {
            proof {
                assert(selected(v@[0]@, TransitionQuery::ByName, name@, 0));
                assert(self.transitions_map()[v@[0]@.id].name == name@);
            }
            Some(v)
        }
    }

    /// The transitions with an arc into the place (the place's preset).
    pub fn get_incoming_transitions(&self, place_id: &u64) -> (r: Vec<&Transition>)
        requires
            self.wf(),
        ensures
            r@.map_values(|t: &Transition| t@.id).no_duplicates(),
            forall|i: int| 0 <= i < r@.len() ==> self.transitions_map().dom().contains(#[trigger] r@[i]@.id)
                && self.transitions_map()[r@[i]@.id] == r@[i]@ && touches(r@[i]@.outgoing, *place_id),
            forall|id: u64| self.transitions_map().dom().contains(id) && touches(self.transitions_map()[id].outgoing, *place_id)
                ==> exists|i: int| 0 <= i < r@.len() && #[trigger] r@[i]@.id == id,
    {
        self.select_transitions(TransitionQuery::IntoPlace, "", *place_id)
    }

    /// The transitions with an arc out of the place (the place's postset).
    pub fn get_outgoing_transitions(&self, place_id: &u64) -> (r: Vec<&Transition>)
        requires
            self.wf(),
        ensures
            r@.map_values(|t: &Transition| t@.id).no_duplicates(),
            forall|i: int| 0 <= i < r@.len() ==> self.transitions_map().dom().contains(#[trigger] r@[i]@.id)
                && self.transitions_map()[r@[i]@.id] == r@[i]@ && touches(r@[i]@.incoming, *place_id),
            forall|id: u64| self.transitions_map().dom().contains(id) && touches(self.transitions_map()[id].incoming, *place_id)
                ==> exists|i: int| 0 <= i < r@.len() && #[trigger] r@[i]@.id == id,
    {
        self.select_transitions(TransitionQuery::OutOfPlace, "", *place_id)
    }

    /// Removes the transition with the given identifier, returning it.
    pub fn delete_transition(&mut self, id: &u64) -> (r: Option<Transition>)
        requires
            old(self).wf(),
        ensures
            final(self).wf(),
            match r {
                Some(t) => old(self).transitions_map().dom().contains(*id) && t@ == old(self).transitions_map()[*id],
                None => !old(self).transitions_map().dom().contains(*id),
            },
            final(self).transitions_map() == old(self).transitions_map().remove(*id),
            final(self).places_map() == old(self).places_map(),
            final(self).initial() == old(self).initial(),
            final(self).final_() == old(self).final_(),
    {
        let ghost old_ids = self.transition_ids();
        let ghost old_map = self.transitions_map();
        match self.find_transition_index(*id) {
            Some(i) => {
                let t = self.transitions.remove(i);
                proof {
                    assert(self.transition_ids() =~= old_ids.remove(i as int));
                    assert(self.transition_ids().no_duplicates()) by {
                        assert forall|a: int, b: int| 0 <= a < b < self.transition_ids().len() implies self.transition_ids()[a] != self.transition_ids()[b] by {
                            let a2 = if a < i { a } else { a + 1 };
                            let b2 = if b < i { b } else { b + 1 };
                            assert(self.transition_ids()[a] == old_ids[a2]);
                            assert(self.transition_ids()[b] == old_ids[b2]);
                        }
                    }
                    lemma_no_dup_index(old_ids, i as int);
                    assert forall|k: u64| #[trigger] self.transition_ids().contains(k) <==> old_map.remove(*id).dom().contains(k) by {
                        if self.transition_ids().contains(k) {
                            let j = choose|j: int| 0 <= j < self.transition_ids().len() && self.transition_ids()[j] == k;
                            let j2 = if j < i { j } else { j + 1 };
                            assert(old_ids[j2] == k);
                            assert(old_ids[i as int] == *id);
                        }
                        if old_ids.contains(k) && k != *id {
                            let j = choose|j: int| 0 <= j < old_ids.len() && old_ids[j] == k;
                            if j < i {
                                assert(self.transition_ids()[j] == k);
                            } else {
                                assert(j != i);
                                assert(self.transition_ids()[j - 1] == k);
                            }
                        }
                    }
                    assert forall|k: u64| #[trigger] self.transition_ids().contains(k) implies self.transitions_map()[k] == old_map.remove(*id)[k] by {
                        let j = self.transition_ids().index_of(k);
                        lemma_no_dup_index(self.transition_ids(), j);
                        let j2 = if j < i { j } else { j + 1 };
                        assert(old_ids[j2] == k);
                        lemma_no_dup_index(old_ids, j2);
                    }
                    assert(self.transitions_map() =~= old_map.remove(*id));
                }
                Some(t)
            },
            None => {
                assert(old_map.remove(*id) =~= old_map);
                None
            },
        }
    }

    fn connect(&mut self, transition_id: u64, place_id: u64, incoming: bool, ids: &mut IdGenerator)
        requires
            old(self).wf(),
            old(self).transitions_map().dom().contains(transition_id),
        ensures
            final(self).wf(),
            final(self).transitions_map() == old(self).transitions_map().insert(
                transition_id,
                if incoming {
                    TransitionView {
                        incoming: old(self).transitions_map()[transition_id].incoming.push((old(ids)@, place_id)),
                        ..old(self).transitions_map()[transition_id]
                    }
                } else {
                    TransitionView {
                        outgoing: old(self).transitions_map()[transition_id].outgoing.push((old(ids)@, place_id)),
                        ..old(self).transitions_map()[transition_id]
                    }
                },
            ),
            final(self).places_map() == old(self).places_map(),
            final(self).initial() == old(self).initial(),
            final(self).final_() == old(self).final_(),
            final(ids)@ == if old(ids)@ < u64::MAX { (old(ids)@ + 1) as u64 } else { 0 },
    {
        let ghost old_ids = self.transition_ids();
        let ghost old_map = self.transitions_map();
        let i = match self.find_transition_index(transition_id) {
            Some(i) => i,
            None => {
                assert(false);
                0
            },
        };
        let mut t = self.transitions.remove(i);
        let ghost tv = t@;
        if incoming {
            t.add_incoming_arc(place_id, ids);
        } else {
            t.add_outgoing_arc(place_id, ids);
        }
        let ghost new_tv = t@;
        self.transitions.insert(i, t);
        proof {
            assert(self.transition_ids() =~= old_ids);
            assert forall|k: u64| #[trigger] self.transition_ids().contains(k) implies self.transitions_map()[k] == old_map.insert(transition_id, new_tv)[k] by {
                let j = self.transition_ids().index_of(k);
                lemma_no_dup_index(self.transition_ids(), j);
            }
            assert(self.transitions_map() =~= old_map.insert(transition_id, new_tv));
        }
    }

    /// Adds an arc from a place into the transition.
    pub fn connect_place_to_transition(&mut self, from_place_id: u64, to_transition_id: u64, ids: &mut IdGenerator)
        requires
            old(self).wf(),
            old(self).transitions_map().dom().contains(to_transition_id),
        ensures
            final(self).wf(),
            final(self).transitions_map() == old(self).transitions_map().insert(
                to_transition_id,
                TransitionView {
                    incoming: old(self).transitions_map()[to_transition_id].incoming.push((old(ids)@, from_place_id)),
                    ..old(self).transitions_map()[to_transition_id]
                },
            ),
            final(self).places_map() == old(self).places_map(),
            final(self).initial() == old(self).initial(),
            final(self).final_() == old(self).final_(),
            final(ids)@ == if old(ids)@ < u64::MAX { (old(ids)@ + 1) as u64 } else { 0 },
    {
        self.connect(to_transition_id, from_place_id, true, ids);
    }

    /// Adds an arc from the transition out to a place.
    pub fn connect_transition_to_place(&mut self, from_transition_id: u64, to_place_id: u64, ids: &mut IdGenerator)
        requires
            old(self).wf(),
            old(self).transitions_map().dom().contains(from_transition_id),
        ensures
            final(self).wf(),
            final(self).transitions_map() == old(self).transitions_map().insert(
                from_transition_id,
                TransitionView {
                    outgoing: old(self).transitions_map()[from_transition_id].outgoing.push((old(ids)@, to_place_id)),
                    ..old(self).transitions_map()[from_transition_id]
                },
            ),
            final(self).places_map() == old(self).places_map(),
            final(self).initial() == old(self).initial(),
            final(self).final_() == old(self).final_(),
            final(ids)@ == if old(ids)@ < u64::MAX { (old(ids)@ + 1) as u64 } else { 0 },
    {
        self.connect(from_transition_id, to_place_id, false, ids);
    }

    /// The place with the given identifier.
    pub fn place(&self, id: &u64) -> (r: &Place)
        requires
            self.wf(),
            self.places_map().dom().contains(*id),
        ensures
            r@ == (*id, self.places_map()[*id]),
    {
        let i = match self.find_place_index(*id) {
            Some(i) => i,
            None => {
                assert(false);
                0
            },
        };
        proof {
            self.lemma_place_at(i as int);
        }
        &self.places[i]
    }

    /// The transition with the given identifier.
    pub fn transition(&self, id: &u64) -> (r: &Transition)
        requires
            self.wf(),
            self.transitions_map().dom().contains(*id),
        ensures
            r@ == self.transitions_map()[*id],
    {
        let i = match self.find_transition_index(*id) {
            Some(i) => i,
            None => {
                assert(false);
                0
            },
        };
        proof {
            self.lemma_transition_at(i as int);
        }
        &self.transitions[i]
    }

    pub fn set_initial_marking(&mut self, marking: Marking)
        ensures
            final(self).initial() == Some(marking@),
            final(self).places_map() == old(self).places_map(),
            final(self).transitions_map() == old(self).transitions_map(),
            final(self).final_() == old(self).final_(),
            final(self).wf() == old(self).wf(),
    {
        self.initial_marking = Some(marking);
    }

    pub fn set_final_marking(&mut self, marking: Marking)
        ensures
            final(self).final_() == Some(marking@),
            final(self).places_map() == old(self).places_map(),
            final(self).transitions_map() == old(self).transitions_map(),
            final(self).initial() == old(self).initial(),
            final(self).wf() == old(self).wf(),
    {
        self.final_marking = Some(marking);
    }

    pub fn initial_marking(&self) -> (r: Option<&Marking>)
        ensures
            match r {
                Some(m) => self.initial() == Some(m@),
                None => self.initial() is None,
            },
    {
        match &self.initial_marking {
            Some(m) => Some(m),
            None => None,
        }
    }

    pub fn final_marking(&self) -> (r: Option<&Marking>)
        ensures
            match r {
                Some(m) => self.final_() == Some(m@),
                None => self.final_() is None,
            },
    {
        match &self.final_marking {
            Some(m) => Some(m),
            None => None,
        }
    }

    /// The identifier of a place named `name`; `None` when there is none.
    pub fn find_place_id_by_name(&self, name: &str) -> (r: Option<u64>)
        requires
            self.wf(),
        ensures
            match r {
                Some(id) => self.places_map().dom().contains(id) && self.places_map()[id] == name@,
                None => forall|id: u64| #[trigger] self.places_map().dom().contains(id) ==> self.places_map()[id] != name@,
            },
    {
        let mut i: usize = 0;
        while i < self.places.len()
            invariant
                self.wf(),
                i <= self.places@.len(),
                forall|k: int| 0 <= k < i ==> #[trigger] self.places@[k]@.1 != name@,
            decreases self.places.len() - i,
        {
            if str_eq(self.places[i].name().as_str(), name) {
                proof {
                    self.lemma_place_at(i as int);
                }
                return Some(self.places[i].id());
            }
            i = i + 1;
        }
        proof {
            assert forall|id: u64| #[trigger] self.places_map().dom().contains(id) implies self.places_map()[id] != name@ by {
                let k = self.lemma_place_of(id);
            }
        }
        None
    }

    /// The identifier of the first transition, in the order they were
    /// added, that is named `name`.
    pub closed spec fn transition_named(&self, name: Seq<char>) -> Option<u64> {
        match first_named(self.transitions@, name) {
            Some(i) => Some(self.transitions@[i]@.id),
            None => None,
        }
    }

    /// The transition that `transition_named` picks belongs to the net and
    /// carries the name; when it picks none, no transition of the net
    /// carries the name.
    pub proof fn lemma_transition_named(&self, name: Seq<char>)
        requires
            self.wf(),
        ensures
            match self.transition_named(name) {
                Some(id) => self.transitions_map().dom().contains(id) && self.transitions_map()[id].name == name,
                None => forall|id: u64| #[trigger] self.transitions_map().dom().contains(id) ==> self.transitions_map()[id].name != name,
            },
    {
        lemma_first_named_hit(self.transitions@, name);
        match first_named(self.transitions@, name) {
            Some(i) => {
                self.lemma_transition_at(i);
            },
            None => {
                assert forall|id: u64| #[trigger] self.transitions_map().dom().contains(id) implies self.transitions_map()[id].name != name by {
                    let k = self.lemma_transition_of(id);
                }
            },
        }
    }

    /// A transition named `name` (the first added); `None` when there is none.
    pub fn find_transition_by_name(&self, name: &str) -> (r: Option<&Transition>)
        requires
            self.wf(),
        ensures
            match r {
                Some(t) => self.transitions_map().dom().contains(t@.id) && self.transitions_map()[t@.id] == t@ && t@.name == name@
                    && self.transition_named(name@) == Some(t@.id),
                None => self.transition_named(name@) is None
                    && forall|id: u64| #[trigger] self.transitions_map().dom().contains(id) ==> self.transitions_map()[id].name != name@,
            },
    {
        let mut i: usize = 0;
        while i < self.transitions.len()
            invariant
                self.wf(),
                i <= self.transitions@.len(),
                forall|k: int| 0 <= k < i ==> #[trigger] self.transitions@[k]@.name != name@,
                first_named(self.transitions@.take(i as int), name@) is None,
            decreases self.transitions.len() - i,
        {
            assert(self.transitions@.take(i + 1).drop_last() =~= self.transitions@.take(i as int));
            if str_eq(self.transitions[i].name().as_str(), name) {
                proof {
                    self.lemma_transition_at(i as int);
                    lemma_first_named_prefix(self.transitions@, i + 1, name@);
                }
                return Some(&self.transitions[i]);
            }
            i = i + 1;
        }
        proof {
            assert(self.transitions@.take(self.transitions@.len() as int) =~= self.transitions@);
            assert forall|id: u64| #[trigger] self.transitions_map().dom().contains(id) implies self.transitions_map()[id].name != name@ by {
                let k = self.lemma_transition_of(id);
            }
        }
        None
    }
}

/// The position of the first transition of `ts` named `name`.
pub open spec fn first_named(ts: Seq<Transition>, name: Seq<char>) -> Option<int>
    decreases ts.len(),
{
    if ts.len() == 0 {
        None
    } else {
        match first_named(ts.drop_last(), name) {
            Some(i) => Some(i),
            None => if ts.last()@.name == name { Some(ts.len() - 1) } else { None },
        }
    }
}

/// `first_named` finds a transition of that name, or there is none.
proof fn lemma_first_named_hit(ts: Seq<Transition>, name: Seq<char>)
    ensures
        match first_named(ts, name) {
            Some(i) => 0 <= i < ts.len() && ts[i]@.name == name,
            None => forall|k: int| 0 <= k < ts.len() ==> #[trigger] ts[k]@.name != name,
        },
    decreases ts.len(),
{
    if ts.len() > 0 {
        lemma_first_named_hit(ts.drop_last(), name);
        assert forall|k: int| 0 <= k < ts.len() - 1 implies ts[k] == ts.drop_last()[k] by {}
    }
}

/// A hit at the end of a prefix without earlier hits is the first hit.
proof fn lemma_first_named_prefix(ts: Seq<Transition>, n: int, name: Seq<char>)
    requires
        0 < n <= ts.len(),
        first_named(ts.take(n - 1), name) is None,
        ts[n - 1]@.name == name,
    ensures
        first_named(ts, name) == Some(n - 1),
    decreases ts.len() - n,
{
    assert(ts.take(n).drop_last() =~= ts.take(n - 1));
    if n == ts.len() {
        assert(ts.take(n) =~= ts);
    } else {
        lemma_first_named_extend(ts, n, name);
    }
}

/// Once found in a prefix, the first hit stays the first hit.
proof fn lemma_first_named_extend(ts: Seq<Transition>, n: int, name: Seq<char>)
    requires
        0 < n <= ts.len(),
        first_named(ts.take(n), name) is Some,
    ensures
        first_named(ts, name) == first_named(ts.take(n), name),
    decreases ts.len() - n,
{
    if n == ts.len() {
        assert(ts.take(n) =~= ts);
    } else {
        assert(ts.take(n + 1).drop_last() =~= ts.take(n));
        lemma_first_named_extend(ts, n + 1, name);
    }
}

} // verus!
