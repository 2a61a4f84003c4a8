//! A directed graph whose nodes and edges carry optional data.
use vstd::prelude::*;
use crate::petri_net::IdGenerator;

verus! {

pub struct GraphNode<N> {
    id: u64,
    data: Option<N>,
}

pub struct GraphEdge<E> {
    id: u64,
    first_node_id: u64,
    second_node_id: u64,
    data: Option<E>,
}

impl<N> GraphNode<N> {
    pub fn new(data: Option<N>, ids: &mut IdGenerator) -> (r: Self)
        ensures
            r.spec_id() == old(ids)@,
            r.spec_data() == data,
            final(ids)@ == if old(ids)@ < u64::MAX { (old(ids)@ + 1) as u64 } else { 0 },
    {
        GraphNode { id: ids.next_id(), data }
    }

    pub closed spec fn spec_id(&self) -> u64 {
        self.id
    }

    pub closed spec fn spec_data(&self) -> Option<N> {
        self.data
    }

    pub fn data(&self) -> (r: Option<&N>)
        ensures
            match r {
                Some(d) => self.spec_data() == Some(*d),
                None => self.spec_data() is None,
            },
    {
        match &self.data {
            Some(d) => Some(d),
            None => None,
        }
    }

    pub fn id(&self) -> (r: &u64)
        ensures
            *r == self.spec_id(),
    {
        &self.id
    }
}

impl<E> GraphEdge<E> {
    pub fn new(first_node_id: u64, second_node_id: u64, data: Option<E>, ids: &mut IdGenerator) -> (r: Self)
        ensures
            r.spec_id() == old(ids)@,
            r.ends() == (first_node_id, second_node_id),
            r.spec_data() == data,
            final(ids)@ == if old(ids)@ < u64::MAX { (old(ids)@ + 1) as u64 } else { 0 },
    {
        GraphEdge { id: ids.next_id(), first_node_id, second_node_id, data }
    }

    pub closed spec fn spec_id(&self) -> u64 {
        self.id
    }

    pub closed spec fn ends(&self) -> (u64, u64) {
        (self.first_node_id, self.second_node_id)
    }

    pub closed spec fn spec_data(&self) -> Option<E> {
        self.data
    }

    pub fn data(&self) -> (r: Option<&E>)
        ensures
            match r {
                Some(d) => self.spec_data() == Some(*d),
                None => self.spec_data() is None,
            },
    {
        match &self.data {
            Some(d) => Some(d),
            None => None,
        }
    }

    pub fn id(&self) -> (r: &u64)
        ensures
            *r == self.spec_id(),
    {
        &self.id
    }
}

/// A graph: its nodes and edges, each with an identifier handed out by the
/// graph itself.
pub struct Graph<N, E> {
    nodes: Vec<GraphNode<N>>,
    edges: Vec<GraphEdge<E>>,
    ids: IdGenerator,
}

impl<N, E> Graph<N, E> {
    /// The nodes: identifier to data.
    pub closed spec fn nodes(&self) -> Map<u64, Option<N>> {
        Map::new(
            |id: u64| exists|i: int| 0 <= i < self.nodes@.len() && #[trigger] self.nodes@[i].spec_id() == id,
            |id: u64| self.nodes@[choose|i: int| 0 <= i < self.nodes@.len() && #[trigger] self.nodes@[i].spec_id() == id].spec_data(),
        )
    }

    /// The edges: identifier to end points and data.
    pub closed spec fn edges(&self) -> Map<u64, (u64, u64, Option<E>)> {
        Map::new(
            |id: u64| exists|i: int| 0 <= i < self.edges@.len() && #[trigger] self.edges@[i].spec_id() == id,
            |id: u64| {
                let e = self.edges@[choose|i: int| 0 <= i < self.edges@.len() && #[trigger] self.edges@[i].spec_id() == id];
                (e.ends().0, e.ends().1, e.spec_data())
            },
        )
    }

    /// Every identifier is below the next one to be handed out, and no two
    /// nodes (or edges) share one.
    pub closed spec fn wf(&self) -> bool {
        &&& forall|i: int| 0 <= i < self.nodes@.len() ==> (#[trigger] self.nodes@[i]).spec_id() < self.ids@
        &&& forall|i: int| 0 <= i < self.edges@.len() ==> (#[trigger] self.edges@[i]).spec_id() < self.ids@
        &&& forall|i: int, j: int| 0 <= i < j < self.nodes@.len() ==> self.nodes@[i].spec_id() != self.nodes@[j].spec_id()
        &&& forall|i: int, j: int| 0 <= i < j < self.edges@.len() ==> self.edges@[i].spec_id() != self.edges@[j].spec_id()
    }

    /// How many identifiers are left to hand out.
    pub closed spec fn ids_left(&self) -> nat {
        (u64::MAX - self.ids@) as nat
    }

    pub fn empty() -> (r: Self)
        ensures
            r.wf(),
            r.ids_left() == u64::MAX,
            r.nodes() == Map::<u64, Option<N>>::empty(),
            r.edges() == Map::<u64, (u64, u64, Option<E>)>::empty(),
    {
        let r = Graph { nodes: Vec::new(), edges: Vec::new(), ids: IdGenerator::new() };
        assert(r.nodes() =~= Map::<u64, Option<N>>::empty());
        assert(r.edges() =~= Map::<u64, (u64, u64, Option<E>)>::empty());
        r
    }

    /// The nodes, each once.
    pub fn all_nodes(&self) -> (r: Vec<&GraphNode<N>>)
        requires
            self.wf(),
        ensures
            r@.len() == self.nodes().dom().len(),
            forall|i: int| 0 <= i < r@.len() ==> self.nodes().dom().contains(#[trigger] r@[i].spec_id())
                && self.nodes()[r@[i].spec_id()] == r@[i].spec_data(),
            forall|id: u64| self.nodes().dom().contains(id) ==> exists|i: int| 0 <= i < r@.len() && #[trigger] r@[i].spec_id() == id,
    {
        let mut r: Vec<&GraphNode<N>> = Vec::new();
        let mut i: usize = 0;
        while i < self.nodes.len()
            invariant
                self.wf(),
                i <= self.nodes@.len(),
                r@.len() == i,
                forall|k: int| 0 <= k < i ==> #[trigger] r@[k] == &self.nodes@[k],
            decreases self.nodes.len() - i,
        {
            r.push(&self.nodes[i]);
            i = i + 1;
        }
        proof {
            assert forall|k: int| 0 <= k < r@.len() implies self.nodes().dom().contains(#[trigger] r@[k].spec_id())
                && self.nodes()[r@[k].spec_id()] == r@[k].spec_data() by {
                assert(r@[k] == &self.nodes@[k]);
                assert(self.nodes@[k].spec_id() == r@[k].spec_id());
                let j = choose|j: int| 0 <= j < self.nodes@.len() && #[trigger] self.nodes@[j].spec_id() == r@[k].spec_id();
                if j != k {
                    if j < k {
                        assert(self.nodes@[j].spec_id() != self.nodes@[k].spec_id());
                    } else {
                        assert(self.nodes@[k].spec_id() != self.nodes@[j].spec_id());
                    }
                }
            }
            assert forall|id: u64| self.nodes().dom().contains(id) implies exists|k: int| 0 <= k < r@.len() && #[trigger] r@[k].spec_id() == id by {
                let j = choose|j: int| 0 <= j < self.nodes@.len() && #[trigger] self.nodes@[j].spec_id() == id;
                assert(r@[j] == &self.nodes@[j]);
            }
            let ids = self.nodes@.map_values(|n: GraphNode<N>| n.spec_id());
            assert(ids.no_duplicates()) by {
                assert forall|a: int, b: int| 0 <= a < ids.len() && 0 <= b < ids.len() && a != b implies ids[a] != ids[b] by {
                    if a < b {
                        assert(self.nodes@[a].spec_id() != self.nodes@[b].spec_id());
                    } else {
                        assert(self.nodes@[b].spec_id() != self.nodes@[a].spec_id());
                    }
                }
            }
            assert(self.nodes().dom() =~= ids.to_set()) by {
                assert forall|id: u64| self.nodes().dom().contains(id) <==> ids.to_set().contains(id) by {
                    if self.nodes().dom().contains(id) {
                        let j = choose|j: int| 0 <= j < self.nodes@.len() && #[trigger] self.nodes@[j].spec_id() == id;
                        assert(ids[j] == id);
                    }
                    if ids.to_set().contains(id) {
                        let j = choose|j: int| 0 <= j < ids.len() && ids[j] == id;
                        assert(self.nodes@[j].spec_id() == id);
                    }
                }
            }
            ids.unique_seq_to_set();
        }
        r
    }

    /// The edges, each once.
    pub fn all_edges(&self) -> (r: Vec<&GraphEdge<E>>)
        requires
            self.wf(),
        ensures
            forall|i: int| 0 <= i < r@.len() ==> self.edges().dom().contains(#[trigger] r@[i].spec_id())
                && self.edges()[r@[i].spec_id()] == (r@[i].ends().0, r@[i].ends().1, r@[i].spec_data()),
            forall|id: u64| self.edges().dom().contains(id) ==> exists|i: int| 0 <= i < r@.len() && #[trigger] r@[i].spec_id() == id,
            forall|i: int, j: int| 0 <= i < j < r@.len() ==> r@[i].spec_id() != r@[j].spec_id(),
    {
        let mut r: Vec<&GraphEdge<E>> = Vec::new();
        let mut i: usize = 0;
        while i < self.edges.len()
            invariant
                self.wf(),
                i <= self.edges@.len(),
                r@.len() == i,
                forall|k: int| 0 <= k < i ==> #[trigger] r@[k] == &self.edges@[k],
            decreases self.edges.len() - i,
        {
            r.push(&self.edges[i]);
            i = i + 1;
        }
        proof {
            assert forall|k: int| 0 <= k < r@.len() implies self.edges().dom().contains(#[trigger] r@[k].spec_id())
                && self.edges()[r@[k].spec_id()] == (r@[k].ends().0, r@[k].ends().1, r@[k].spec_data()) by {
                assert(r@[k] == &self.edges@[k]);
                let j = choose|j: int| 0 <= j < self.edges@.len() && #[trigger] self.edges@[j].spec_id() == r@[k].spec_id();
                if j != k {
                    if j < k {
                        assert(self.edges@[j].spec_id() != self.edges@[k].spec_id());
                    } else {
                        assert(self.edges@[k].spec_id() != self.edges@[j].spec_id());
                    }
                }
            }
            assert forall|id: u64| self.edges().dom().contains(id) implies exists|k: int| 0 <= k < r@.len() && #[trigger] r@[k].spec_id() == id by {
                let j = choose|j: int| 0 <= j < self.edges@.len() && #[trigger] self.edges@[j].spec_id() == id;
                assert(r@[j] == &self.edges@[j]);
            }
            assert forall|a: int, b: int| 0 <= a < b < r@.len() implies r@[a].spec_id() != r@[b].spec_id() by {
                assert(r@[a] == &self.edges@[a]);
                assert(r@[b] == &self.edges@[b]);
            }
        }
        r
    }

    /// Adds a node carrying `node_data`; returns its identifier.
    pub fn add_node(&mut self, node_data: Option<N>) -> (r: u64)
        requires
            old(self).wf(),
            old(self).ids_left() > 0,
        ensures
            final(self).wf(),
            final(self).ids_left() == old(self).ids_left() - 1,
            !old(self).nodes().dom().contains(r),
            final(self).nodes() == old(self).nodes().insert(r, node_data),
            final(self).edges() == old(self).edges(),
    {
        let ghost old_nodes = self.nodes();
        let ghost old_edges = self.edges();
        let ghost counter = self.ids@;
        let node = GraphNode::new(node_data, &mut self.ids);
        let id = *node.id();
        self.nodes.push(node);
        proof {
            let n = self.nodes@.len() - 1;
            assert(self.nodes@[n].spec_id() == id);
            assert forall|i: int, j: int| 0 <= i < j < self.nodes@.len() implies self.nodes@[i].spec_id() != self.nodes@[j].spec_id() by {
                if j == n {
                    assert(self.nodes@[i].spec_id() < counter);
                }
            }
            assert(!old_nodes.dom().contains(id)) by {
                if old_nodes.dom().contains(id) {
                    let j = choose|j: int| 0 <= j < old(self).nodes@.len() && #[trigger] old(self).nodes@[j].spec_id() == id;
                    assert(old(self).nodes@[j].spec_id() < counter);
                }
            }
            assert forall|x: u64| #[trigger] self.nodes().dom().contains(x) <==> old_nodes.insert(id, node_data).dom().contains(x) by {
                if self.nodes().dom().contains(x) && x != id {
                    let j = choose|j: int| 0 <= j < self.nodes@.len() && #[trigger] self.nodes@[j].spec_id() == x;
                    assert(old(self).nodes@[j].spec_id() == x);
                }
                if old_nodes.dom().contains(x) {
                    let j = choose|j: int| 0 <= j < old(self).nodes@.len() && #[trigger] old(self).nodes@[j].spec_id() == x;
                    assert(self.nodes@[j].spec_id() == x);
                }
            }
            assert forall|x: u64| #[trigger] self.nodes().dom().contains(x) implies self.nodes()[x] == old_nodes.insert(id, node_data)[x] by {
                let j = choose|j: int| 0 <= j < self.nodes@.len() && #[trigger] self.nodes@[j].spec_id() == x;
                if x == id {
                    if j != n {
                        assert(self.nodes@[j].spec_id() != self.nodes@[n].spec_id());
                    }
                } else {
                    let j0 = choose|j0: int| 0 <= j0 < old(self).nodes@.len() && #[trigger] old(self).nodes@[j0].spec_id() == x;
                    assert(self.nodes@[j0].spec_id() == x);
                    if j != j0 {
                        if j < j0 {
                            assert(self.nodes@[j].spec_id() != self.nodes@[j0].spec_id());
                        } else {
                            assert(self.nodes@[j0].spec_id() != self.nodes@[j].spec_id());
                        }
                    }
                }
            }
            assert(self.nodes() =~= old_nodes.insert(id, node_data));
            assert(self.edges() =~= old_edges);
        }
        id
    }

    /// Connects two existing nodes by a new edge carrying `edge_data`;
    /// `None` when either node is missing.
    pub fn connect_nodes(&mut self, first_node_id: &u64, second_node_id: &u64, edge_data: Option<E>) -> (r: Option<u64>)
        requires
            old(self).wf(),
            old(self).ids_left() > 0,
        ensures
            final(self).wf(),
            final(self).ids_left() == old(self).ids_left() - if r is Some { 1int } else { 0int },
            final(self).nodes() == old(self).nodes(),
            match r {
                Some(id) => old(self).nodes().dom().contains(*first_node_id) && old(self).nodes().dom().contains(*second_node_id)
                    && !old(self).edges().dom().contains(id)
                    && final(self).edges() == old(self).edges().insert(id, (*first_node_id, *second_node_id, edge_data)),
                None => !(old(self).nodes().dom().contains(*first_node_id) && old(self).nodes().dom().contains(*second_node_id))
                    && final(self).edges() == old(self).edges(),
            },
    {
        if !self.has_node(*first_node_id) || !self.has_node(*second_node_id) {
            return None;
        }
        let ghost old_nodes = self.nodes();
        let ghost old_edges = self.edges();
        let ghost counter = self.ids@;
        let edge = GraphEdge::new(*first_node_id, *second_node_id, edge_data, &mut self.ids);
        let id = *edge.id();
        self.edges.push(edge);
        proof {
            let n = self.edges@.len() - 1;
            assert(self.edges@[n].spec_id() == id);
            assert forall|i: int, j: int| 0 <= i < j < self.edges@.len() implies self.edges@[i].spec_id() != self.edges@[j].spec_id() by {
                if j == n {
                    assert(self.edges@[i].spec_id() < counter);
                }
            }
            assert(!old_edges.dom().contains(id)) by {
                if old_edges.dom().contains(id) {
                    let j = choose|j: int| 0 <= j < old(self).edges@.len() && #[trigger] old(self).edges@[j].spec_id() == id;
                    assert(old(self).edges@[j].spec_id() < counter);
                }
            }
            let v = (*first_node_id, *second_node_id, edge_data);
            assert forall|x: u64| #[trigger] self.edges().dom().contains(x) <==> old_edges.insert(id, v).dom().contains(x) by {
                if self.edges().dom().contains(x) && x != id {
                    let j = choose|j: int| 0 <= j < self.edges@.len() && #[trigger] self.edges@[j].spec_id() == x;
                    assert(old(self).edges@[j].spec_id() == x);
                }
                if old_edges.dom().contains(x) {
                    let j = choose|j: int| 0 <= j < old(self).edges@.len() && #[trigger] old(self).edges@[j].spec_id() == x;
                    assert(self.edges@[j].spec_id() == x);
                }
            }
            assert forall|x: u64| #[trigger] self.edges().dom().contains(x) implies self.edges()[x] == old_edges.insert(id, v)[x] by {
                let j = choose|j: int| 0 <= j < self.edges@.len() && #[trigger] self.edges@[j].spec_id() == x;
                if x == id {
                    if j != n {
                        assert(self.edges@[j].spec_id() != self.edges@[n].spec_id());
                    }
                } else {
                    let j0 = choose|j0: int| 0 <= j0 < old(self).edges@.len() && #[trigger] old(self).edges@[j0].spec_id() == x;
                    assert(self.edges@[j0].spec_id() == x);
                    if j != j0 {
                        if j < j0 {
                            assert(self.edges@[j].spec_id() != self.edges@[j0].spec_id());
                        } else {
                            assert(self.edges@[j0].spec_id() != self.edges@[j].spec_id());
                        }
                    }
                }
            }
            assert(self.edges() =~= old_edges.insert(id, v));
            assert(self.nodes() =~= old_nodes);
        }
        Some(id)
    }

    fn has_node(&self, id: u64) -> (r: bool)
        ensures
            r == self.nodes().dom().contains(id),
    {
        let mut i: usize = 0;
        while i < self.nodes.len()
            invariant
                i <= self.nodes@.len(),
                forall|k: int| 0 <= k < i ==> self.nodes@[k].spec_id() != id,
            decreases self.nodes.len() - i,
        {
            if self.nodes[i].id == id {
                assert(self.nodes@[i as int].spec_id() == id);
                return true;
            }
            i = i + 1;
        }
        false
    }
}

} // verus!
