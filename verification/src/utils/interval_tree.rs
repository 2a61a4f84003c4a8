//! A centered interval tree over `u64` points: each node keeps the intervals
//! that contain its center, its left subtree those that end before the
//! center and its right subtree those that start after it.
use vstd::prelude::*;

verus! {

broadcast use {vstd::seq_lib::group_seq_properties, vstd::seq_lib::group_to_multiset_ensures};

/// A closed interval of points, with an optional piece of data.
#[derive(PartialEq, Eq, Structural, Clone, Copy, Hash, Debug)]
pub struct Interval {
    pub left: u64,
    pub right: u64,
    pub data: Option<u64>,
}

impl Interval {
    /// The interval `[left, right]` without data.
    pub fn new(left: u64, right: u64) -> (r: Self)
        ensures
            r == (Interval { left, right, data: None }),
    {
        Interval { left, right, data: None }
    }

    /// The interval `[left, right]` carrying `data`.
    pub fn new_with_data(left: u64, right: u64, data: Option<u64>) -> (r: Self)
        ensures
            r == (Interval { left, right, data }),
    {
        Interval { left, right, data }
    }

    /// The interval holds `point`.
    pub open spec fn holds(self, point: u64) -> bool {
        self.left <= point <= self.right
    }

    /// Whether the interval holds `point`.
    pub fn contains(&self, point: u64) -> (r: bool)
        ensures
            r == self.holds(point),
    {
        self.left <= point && point <= self.right
    }
}

/// The interval does not end before it starts.
pub open spec fn proper(i: Interval) -> bool {
    i.left <= i.right
}

/// The intervals are ordered by their left end.
pub open spec fn sorted_by_left(s: Seq<Interval>) -> bool {
    forall|a: int, b: int| 0 <= a < b < s.len() ==> (#[trigger] s[a]).left <= (#[trigger] s[b]).left
}

/// The intervals of `v`, ordered by their left end; intervals with equal left
/// ends keep their order.
fn sort_by_left(v: Vec<Interval>) -> (r: Vec<Interval>)
    ensures
        r@.to_multiset() == v@.to_multiset(),
        sorted_by_left(r@),
{
    let mut r: Vec<Interval> = Vec::new();
    let mut i: usize = 0;
    while i < v.len()
        invariant
            i <= v@.len(),
            r@.to_multiset() == v@.take(i as int).to_multiset(),
            sorted_by_left(r@),
        decreases v.len() - i,
    {
        let x = v[i];
        let mut j: usize = r.len();
        while j > 0 && r[j - 1].left > x.left
            invariant
                j <= r@.len(),
                sorted_by_left(r@),
                forall|k: int| j <= k < r@.len() ==> (#[trigger] r@[k]).left > x.left,
            decreases j,
        {
            j = j - 1;
        }
        proof {
            assert(v@.take(i + 1) =~= v@.take(i as int).push(x));
        }
        let ghost before = r@;
        r.insert(j, x);
        proof {
            assert(r@ == before.insert(j as int, x));
            assert forall|a: int, b: int| 0 <= a < b < r@.len() implies (#[trigger] r@[a]).left <= (#[trigger] r@[b]).left by {
                if b < j {
                } else if b == j {
                    if a < j {
                        assert(r@[a] == before[a]);
                        assert(before[j - 1].left <= x.left);
                        assert(before[a].left <= before[j - 1].left);
                    }
                } else if a < j {
                    assert(r@[a] == before[a]);
                    assert(r@[b] == before[b - 1]);
                } else if a == j {
                    assert(r@[b] == before[b - 1]);
                } else {
                    assert(r@[a] == before[a - 1]);
                    assert(r@[b] == before[b - 1]);
                }
            }
        }
        i = i + 1;
    }
    proof {
        assert(v@.take(v@.len() as int) =~= v@);
    }
    r
}

/// A node: the intervals holding `center`, and its children by their index.
struct Node {
    left_child: Option<usize>,
    right_child: Option<usize>,
    center: u64,
    intervals: Vec<Interval>,
}

/// The node in the form `dump_nodes` gives it.
pub type NodeView = (Option<usize>, Option<usize>, u64, Seq<Interval>);

/// The sum of the lengths of `q[from..]`.
spec fn pending(q: Seq<Vec<Interval>>, from: int) -> nat
    decreases q.len(),
{
    if q.len() <= from || q.len() == 0 {
        0
    } else {
        pending(q.drop_last(), from) + q.last()@.len()
    }
}

proof fn lemma_pending_split(q: Seq<Vec<Interval>>, from: int)
    requires
        0 <= from < q.len(),
    ensures
        pending(q, from) == q[from]@.len() + pending(q, from + 1),
    decreases q.len(),
{
    if from < q.len() - 1 {
        lemma_pending_split(q.drop_last(), from);
    } else {
        assert(pending(q.drop_last(), from) == 0);
    }
}

proof fn lemma_pending_update(q: Seq<Vec<Interval>>, at: int, x: Vec<Interval>, from: int)
    requires
        0 <= at < from,
        at < q.len(),
    ensures
        pending(q.update(at, x), from) == pending(q, from),
    decreases q.len(),
{
    if q.len() > from {
        assert(q.update(at, x).drop_last() =~= q.drop_last().update(at, x));
        lemma_pending_update(q.drop_last(), at, x, from);
    }
}

proof fn lemma_pending_push(q: Seq<Vec<Interval>>, x: Vec<Interval>, from: int)
    requires
        0 <= from <= q.len(),
    ensures
        pending(q.push(x), from) == pending(q, from) + x@.len(),
{
    assert(q.push(x).drop_last() =~= q);
}

/// An interval tree. Its range creator gives, for a closed interval of
/// points, the points at which `search_overlaps_for_interval` searches.
pub struct IntervalTree<R> {
    nodes: Vec<Node>,
    boundaries: Vec<u64>,
    range_creator: R,
    subtrees: Ghost<Seq<Set<Interval>>>,
}

/// The tree laws of node `i`: its children come after it, its own intervals
/// hold its center, the left subtree ends before the center, the right
/// subtree starts after it, and the subtree of `i` is the union of the three.
spec fn node_ok(nodes: Seq<Node>, sets: Seq<Set<Interval>>, bound: int, i: int) -> bool {
    let n = nodes[i];
    &&& (n.left_child matches Some(c) ==> i < c < bound)
    &&& (n.right_child matches Some(c) ==> i < c < bound)
    &&& (forall|x: Interval| #[trigger] n.intervals@.contains(x) ==> x.left <= n.center <= x.right)
    &&& (n.left_child matches Some(c) ==> forall|x: Interval| #[trigger] sets[c as int].contains(x) ==> x.right < n.center)
    &&& (n.right_child matches Some(c) ==> forall|x: Interval| #[trigger] sets[c as int].contains(x) ==> x.left > n.center)
    &&& (forall|x: Interval| #[trigger] sets[i].contains(x) <==> (n.intervals@.contains(x)
        || (n.left_child matches Some(c) && sets[c as int].contains(x))
        || (n.right_child matches Some(c) && sets[c as int].contains(x))))
}

/// Splits `sorted` at `center` into the intervals that end before it, those
/// that start after it and those that hold it; the ends of every interval are
/// added to `boundaries`.
fn split_at_center(sorted: &Vec<Interval>, center: u64, boundaries: &mut Vec<u64>) -> (r: (Vec<Interval>, Vec<Interval>, Vec<Interval>))
    ensures
        r.0@.len() + r.1@.len() + r.2@.len() == sorted@.len(),
        forall|x: Interval| #[trigger] sorted@.contains(x) <==> (r.0@.contains(x) || r.1@.contains(x) || r.2@.contains(x)),
        forall|x: Interval| #[trigger] r.0@.contains(x) ==> x.right < center && sorted@.contains(x),
        forall|x: Interval| #[trigger] r.1@.contains(x) ==> x.left > center && sorted@.contains(x),
        forall|x: Interval| #[trigger] r.2@.contains(x) ==> x.left <= center <= x.right && sorted@.contains(x),
        forall|b: u64| #[trigger] old(boundaries)@.contains(b) ==> final(boundaries)@.contains(b),
        forall|x: Interval| #[trigger] sorted@.contains(x) ==> final(boundaries)@.contains(x.left),
{
    let mut left_intervals: Vec<Interval> = Vec::new();
    let mut right_intervals: Vec<Interval> = Vec::new();
    let mut node_intervals: Vec<Interval> = Vec::new();
    let ghost b0 = boundaries@;
    let mut k: usize = 0;
    while k < sorted.len()
        invariant
            k <= sorted@.len(),
            b0 == old(boundaries)@,
            forall|b: u64| #[trigger] b0.contains(b) ==> boundaries@.contains(b),
            forall|x: Interval| #[trigger] sorted@.take(k as int).contains(x) ==> boundaries@.contains(x.left),
            left_intervals@.len() + right_intervals@.len() + node_intervals@.len() == k,
            forall|x: Interval| #[trigger] sorted@.take(k as int).contains(x) <==> (left_intervals@.contains(x)
                || right_intervals@.contains(x) || node_intervals@.contains(x)),
            forall|x: Interval| #[trigger] left_intervals@.contains(x) ==> x.right < center && sorted@.contains(x),
            forall|x: Interval| #[trigger] right_intervals@.contains(x) ==> x.left > center && sorted@.contains(x),
            forall|x: Interval| #[trigger] node_intervals@.contains(x) ==> x.left <= center <= x.right && sorted@.contains(x),
        decreases sorted.len() - k,
    {
        let interval = sorted[k];
        assert(sorted@.take(k + 1) =~= sorted@.take(k as int).push(interval));
        boundaries.push(interval.left);
        boundaries.push(interval.right);
        if interval.right < center {
            left_intervals.push(interval);
        } else if interval.left > center {
            right_intervals.push(interval);
        } else {
            node_intervals.push(interval);
        }
        k = k + 1;
    }
    assert(sorted@.take(sorted@.len() as int) =~= sorted@);
    (left_intervals, right_intervals, node_intervals)
}

/// The intervals of queue entry `k` while the tree is built: a node's own
/// intervals once it is made (`k < head`), the intervals still to place otherwise.
spec fn part(nodes: Seq<Node>, sets: Seq<Set<Interval>>, head: int, k: int) -> Set<Interval> {
    if k < head {
        nodes[k].intervals@.to_set()
    } else {
        sets[k]
    }
}

/// No interval belongs to two queue entries.
spec fn parts_disjoint(nodes: Seq<Node>, sets: Seq<Set<Interval>>, head: int, len: int) -> bool {
    forall|a: int, b: int, x: Interval| 0 <= a < b < len && #[trigger] part(nodes, sets, head, a).contains(x)
        ==> !#[trigger] part(nodes, sets, head, b).contains(x)
}

/// No interval belongs to two nodes.
spec fn nodes_disjoint(nodes: Seq<Node>) -> bool {
    forall|a: int, b: int, x: Interval| 0 <= a < b < nodes.len() && #[trigger] nodes[a].intervals@.contains(x)
        ==> !#[trigger] nodes[b].intervals@.contains(x)
}

proof fn lemma_parts_step(
    n0: Seq<Node>,
    s0: Seq<Set<Interval>>,
    head: int,
    n1: Seq<Node>,
    s1: Seq<Set<Interval>>,
    center: u64,
)
    requires
        0 <= head < s0.len() <= s1.len() <= s0.len() + 2,
        n0.len() == head,
        n1.len() == head + 1,
        forall|k: int| 0 <= k < head ==> n1[k] == n0[k],
        forall|k: int| 0 <= k < s0.len() ==> s1[k] == s0[k],
        parts_disjoint(n0, s0, head, s0.len() as int),
        forall|x: Interval| #[trigger] s0[head].contains(x) ==> proper(x),
        forall|x: Interval| #[trigger] n1[head].intervals@.contains(x) ==> s0[head].contains(x) && x.left <= center <= x.right,
        forall|k: int, x: Interval| s0.len() <= k < s1.len() && #[trigger] s1[k].contains(x) ==> s0[head].contains(x)
            && (x.right < center || x.left > center),
        s1.len() == s0.len() + 2 ==> (forall|x: Interval| #[trigger] s1[s0.len() as int].contains(x) ==> x.right < center)
            && (forall|x: Interval| #[trigger] s1[s0.len() as int + 1].contains(x) ==> x.left > center),
    ensures
        parts_disjoint(n1, s1, head + 1, s1.len() as int),
{
    let l0 = s0.len() as int;
    assert forall|a: int, b: int, x: Interval| 0 <= a < b < s1.len() && #[trigger] part(n1, s1, head + 1, a).contains(x)
        implies !#[trigger] part(n1, s1, head + 1, b).contains(x) by {
        let fa = if a >= l0 { head } else { a };
        let fb = if b >= l0 { head } else { b };
        assert forall|k: int, y: Interval| 0 <= k < s1.len() && #[trigger] part(n1, s1, head + 1, k).contains(y) implies
            part(n0, s0, head, if k >= l0 { head } else { k }).contains(y) by {
            if k < head {
                assert(n1[k] == n0[k]);
            } else if k == head {
                assert(n1[head].intervals@.contains(y));
            }
        }
        if part(n1, s1, head + 1, b).contains(x) {
            assert(part(n0, s0, head, fa).contains(x));
            assert(part(n0, s0, head, fb).contains(x));
            if fa < fb {
            } else if fb < fa {
            } else {
                assert(s0[head].contains(x));
                assert(proper(x));
                if a == head {
                    assert(n1[head].intervals@.contains(x));
                    assert(s1[b].contains(x));
                } else {
                    assert(s1[a].contains(x) && s1[b].contains(x));
                    assert(a == l0 && b == l0 + 1);
                }
            }
        }
    }
}

proof fn lemma_nodes_extend(n0: Seq<Node>, s0: Seq<Set<Interval>>, b0: int, n1: Seq<Node>, s1: Seq<Set<Interval>>, b1: int)
    requires
        n0.len() <= n1.len(),
        s0.len() == b0 <= b1 <= s1.len(),
        forall|i: int| 0 <= i < n0.len() ==> n1[i] == n0[i],
        forall|i: int| 0 <= i < b0 ==> s1[i] == s0[i],
        n0.len() <= b0,
        forall|i: int| 0 <= i < n0.len() ==> #[trigger] node_ok(n0, s0, b0, i),
    ensures
        forall|i: int| 0 <= i < n0.len() ==> #[trigger] node_ok(n1, s1, b1, i),
{
    assert forall|i: int| 0 <= i < n0.len() implies #[trigger] node_ok(n1, s1, b1, i) by {
        assert(node_ok(n0, s0, b0, i));
        assert(n1[i] == n0[i]);
        assert(s1[i] == s0[i]);
        let n = n0[i];
        if let Some(c) = n.left_child {
            assert(s1[c as int] == s0[c as int]);
        }
        if let Some(c) = n.right_child {
            assert(s1[c as int] == s0[c as int]);
        }
    }
}

/// Node `j` is a child of node `p`.
spec fn child_of(nodes: Seq<Node>, p: int, j: int) -> bool {
    nodes[p].left_child == Some(j as usize) || nodes[p].right_child == Some(j as usize)
}

/// Every node but the first is the child of an earlier node.
spec fn has_parents(nodes: Seq<Node>, bound: int) -> bool {
    forall|j: int| 1 <= j < bound ==> #[trigger] has_parent(nodes, j)
}

/// Node `j` is the child of an earlier node.
spec fn has_parent(nodes: Seq<Node>, j: int) -> bool {
    exists|p: int| 0 <= p < j && p < nodes.len() && #[trigger] child_of(nodes, p, j)
}

impl<R> IntervalTree<R> {
    /// The intervals the tree holds.
    pub closed spec fn intervals(&self) -> Set<Interval> {
        self.subtrees@[0]
    }

    /// The nodes, each as its left child, right child, center and intervals.
    pub closed spec fn nodes_view(&self) -> Seq<NodeView> {
        self.nodes@.map_values(|n: Node| (n.left_child, n.right_child, n.center, n.intervals@))
    }

    /// The intervals of the subtree rooted at node `i`.
    pub closed spec fn subtree(&self, i: int) -> Set<Interval> {
        self.subtrees@[i]
    }

    /// The intervals of the subtree of node `j`'s left child (none without one).
    pub open spec fn left_subtree(&self, j: int) -> Set<Interval> {
        match self.nodes_view()[j].0 {
            Some(c) => self.subtree(c as int),
            None => Set::empty(),
        }
    }

    /// The intervals of the subtree of node `j`'s right child (none without one).
    pub open spec fn right_subtree(&self, j: int) -> Set<Interval> {
        match self.nodes_view()[j].1 {
            Some(c) => self.subtree(c as int),
            None => Set::empty(),
        }
    }

    /// The range creator the tree was made with.
    pub closed spec fn creator(&self) -> R {
        self.range_creator
    }

    /// Well-formedness: every node obeys the tree laws, and every left end
    /// of an interval of the tree is a boundary.
    pub closed spec fn wf(&self) -> bool {
        &&& self.nodes@.len() >= 1
        &&& self.nodes@.len() <= usize::MAX
        &&& self.subtrees@.len() == self.nodes@.len()
        &&& forall|i: int| 0 <= i < self.nodes@.len() ==> #[trigger] node_ok(self.nodes@, self.subtrees@, self.nodes@.len() as int, i)
        &&& forall|x: Interval| #[trigger] self.subtrees@[0].contains(x) ==> self.boundaries@.contains(x.left)
        &&& has_parents(self.nodes@, self.nodes@.len() as int)
        &&& nodes_disjoint(self.nodes@)
    }

    /// The tree of `intervals`, each of which must not end before it starts
    /// (the construction would not end otherwise) and of which there must
    /// be at least one.
    pub fn new(intervals: Vec<Interval>, range_creator: R) -> (r: Self)
        requires
            intervals@.len() > 0,
            forall|k: int| 0 <= k < intervals@.len() ==> proper(#[trigger] intervals@[k]),
        ensures
            r.wf(),
            r.intervals() == intervals@.to_set(),
            r.creator() == range_creator,
    {
        let mut nodes: Vec<Node> = Vec::new();
        let mut boundaries: Vec<u64> = Vec::new();
        let ghost all = intervals@.to_set();
        let mut queue: Vec<Vec<Interval>> = Vec::new();
        queue.push(intervals);
        let ghost mut sets: Seq<Set<Interval>> = seq![all];
        let mut head: usize = 0;
        while head < queue.len()
            invariant
                head == nodes@.len(),
                head <= queue@.len(),
                queue@.len() >= 1,
                sets.len() == queue@.len(),
                sets[0] == all,
                forall|k: int| #![trigger queue@[k]] head <= k < queue@.len() ==> queue@[k]@.len() > 0
                    && queue@[k]@.to_set() == sets[k]
                    && forall|x: Interval| queue@[k]@.contains(x) ==> proper(x),
                forall|i: int| 0 <= i < head ==> #[trigger] node_ok(nodes@, sets, queue@.len() as int, i),
                head > 0 ==> forall|x: Interval| #[trigger] all.contains(x) ==> boundaries@.contains(x.left),
                has_parents(nodes@, queue@.len() as int),
                parts_disjoint(nodes@, sets, head as int, queue@.len() as int),
            decreases pending(queue@, head as int),
        {
            proof {
                lemma_pending_split(queue@, head as int);
            }
            let ghost q0 = queue@;
            let ghost q0_sets = sets;
            let mut cur: Vec<Interval> = Vec::new();
            std::mem::swap(&mut cur, &mut queue[head]);
            proof {
                assert(queue@ =~= q0.update(head as int, queue@[head as int]));
                assert(cur == q0[head as int]);
                lemma_pending_update(q0, head as int, queue@[head as int], head + 1);
            }
            let ghost set_here = sets[head as int];
            assert(cur@.to_set() == set_here);
            let sorted = sort_by_left(cur);
            proof {
                assert forall|x: Interval| sorted@.contains(x) <==> cur@.contains(x) by {
                    assert(sorted@.to_multiset().count(x) == cur@.to_multiset().count(x));
                }
            }
            proof {
                vstd::seq_lib::to_multiset_len(sorted@);
                vstd::seq_lib::to_multiset_len(cur@);
            }
            let center = sorted[sorted.len() / 2].left;
            let ghost median = sorted@[(sorted@.len() / 2) as int];
            proof {
                assert(sorted@.contains(median));
                assert(cur@.contains(median));
                assert(q0[head as int]@.contains(median));
                assert(proper(median));
            }
            let ghost b0 = boundaries@;
            let (left_intervals, right_intervals, node_intervals) = split_at_center(&sorted, center, &mut boundaries);
            proof {
                assert(node_intervals@.contains(median));
                if head == 0 {
                    assert forall|x: Interval| #[trigger] all.contains(x) implies boundaries@.contains(x.left) by {
                        assert(sorted@.contains(x));
                    }
                }
            }
            let node_index = nodes.len();
            let mut node = Node { left_child: None, right_child: None, center, intervals: node_intervals };
            if left_intervals.len() > 0 {
                node.left_child = Some(queue.len());
                let ghost q1 = queue@;
                queue.push(left_intervals);
                proof {
                    lemma_pending_push(q1, left_intervals, head + 1);
                    sets = sets.push(left_intervals@.to_set());
                }
            }
            if right_intervals.len() > 0 {
                node.right_child = Some(queue.len());
                let ghost q1 = queue@;
                queue.push(right_intervals);
                proof {
                    lemma_pending_push(q1, right_intervals, head + 1);
                    sets = sets.push(right_intervals@.to_set());
                }
            }
            let ghost n0 = nodes@;
            nodes.push(node);
            proof {
                assert forall|x: Interval| #[trigger] q0_sets[head as int].contains(x) implies proper(x) by {
                    assert(q0[head as int]@.to_set().contains(x));
                }
                assert forall|k: int, x: Interval| q0.len() <= k < sets.len() && #[trigger] sets[k].contains(x) implies
                    q0_sets[head as int].contains(x) && (x.right < center || x.left > center) by {
                    if k == q0.len() && left_intervals@.len() > 0 {
                        assert(left_intervals@.contains(x));
                    } else {
                        assert(right_intervals@.contains(x));
                    }
                    assert(sorted@.contains(x));
                }
                if sets.len() == q0.len() + 2 {
                    assert forall|x: Interval| #[trigger] sets[q0.len() as int].contains(x) implies x.right < center by {
                        assert(left_intervals@.contains(x));
                    }
                    assert forall|x: Interval| #[trigger] sets[q0.len() as int + 1].contains(x) implies x.left > center by {
                        assert(right_intervals@.contains(x));
                    }
                }
                assert forall|x: Interval| #[trigger] nodes@[head as int].intervals@.contains(x) implies
                    q0_sets[head as int].contains(x) && x.left <= center <= x.right by {
                    assert(node_intervals@.contains(x));
                    assert(sorted@.contains(x));
                }
                lemma_parts_step(n0, q0_sets, head as int, nodes@, sets, center);
                lemma_nodes_extend(n0, q0_sets, q0.len() as int, nodes@, sets, queue@.len() as int);
                assert(node_ok(nodes@, sets, queue@.len() as int, head as int));
                assert forall|j: int| 1 <= j < queue@.len() implies #[trigger] has_parent(nodes@, j) by {
                    if j < q0.len() {
                        assert(has_parent(n0, j));
                        let p = choose|p: int| 0 <= p < j && p < n0.len() && #[trigger] child_of(n0, p, j);
                        assert(nodes@[p] == n0[p]);
                        assert(child_of(nodes@, p, j));
                    } else {
                        assert(child_of(nodes@, head as int, j));
                    }
                }
            }
            head = head + 1;
        }
        assert(nodes@.len() >= 1);
        assert(nodes@.len() == nodes.len());
        assert(forall|x: Interval| #[trigger] sets[0].contains(x) ==> boundaries@.contains(x.left));
        assert(nodes_disjoint(nodes@)) by {
            assert forall|a: int, b: int, x: Interval| 0 <= a < b < nodes@.len() && #[trigger] nodes@[a].intervals@.contains(x)
                implies !#[trigger] nodes@[b].intervals@.contains(x) by {
                assert(head == queue@.len());
                assert(part(nodes@, sets, head as int, a).contains(x));
                if nodes@[b].intervals@.contains(x) {
                    assert(part(nodes@, sets, head as int, b).contains(x));
                }
            }
        }
        IntervalTree { nodes, boundaries, range_creator, subtrees: Ghost(sets) }
    }
}

/// Whether `x` is in `v`.
fn has_interval(v: &Vec<Interval>, x: Interval) -> (r: bool)
    ensures
        r == v@.contains(x),
{
    let mut i: usize = 0;
    while i < v.len()
        invariant
            i <= v@.len(),
            forall|k: int| 0 <= k < i ==> v@[k] != x,
        decreases v.len() - i,
    {
        if v[i] == x {
            return true;
        }
        i = i + 1;
    }
    false
}

/// Adds `x` to `result` unless it is there already.
fn push_unique(result: &mut Vec<Interval>, x: Interval)
    requires
        old(result)@.no_duplicates(),
    ensures
        final(result)@.no_duplicates(),
        forall|y: Interval| #[trigger] final(result)@.contains(y) <==> (old(result)@.contains(y) || y == x),
{
    if !has_interval(result, x) {
        result.push(x);
    }
}

/// The intervals of `set`, ordered by their left end.
fn to_ordered_vec(set: Vec<Interval>) -> (r: Vec<Interval>)
    requires
        set@.no_duplicates(),
    ensures
        r@.no_duplicates(),
        sorted_by_left(r@),
        forall|x: Interval| #[trigger] r@.contains(x) <==> set@.contains(x),
{
    let r = sort_by_left(set);
    proof {
        set@.lemma_multiset_has_no_duplicates();
        assert forall|x: Interval| r@.to_multiset().contains(x) implies r@.to_multiset().count(x) == 1 by {
            assert(set@.to_multiset().contains(x));
        }
        r@.lemma_multiset_has_no_duplicates_conv();
        assert forall|x: Interval| #[trigger] r@.contains(x) <==> set@.contains(x) by {
            assert(r@.to_multiset().count(x) == set@.to_multiset().count(x));
        }
    }
    r
}

impl<R> IntervalTree<R> {
    /// Adds to `result` the intervals of the subtree of `node_index` that hold `point`.
    fn search_internal(&self, node_index: usize, point: u64, result: &mut Vec<Interval>)
        requires
            self.wf(),
            node_index < self.nodes@.len(),
            old(result)@.no_duplicates(),
        ensures
            final(result)@.no_duplicates(),
            forall|x: Interval| #[trigger] final(result)@.contains(x) <==> (old(result)@.contains(x)
                || (self.subtrees@[node_index as int].contains(x) && x.holds(point))),
        decreases self.nodes@.len() - node_index,
    {
        let node = &self.nodes[node_index];
        proof {
            assert(node_ok(self.nodes@, self.subtrees@, self.nodes@.len() as int, node_index as int));
        }
        let ghost r0 = result@;
        let mut k: usize = 0;
        while k < node.intervals.len()
            invariant
                k <= node.intervals@.len(),
                result@.no_duplicates(),
                forall|x: Interval| #[trigger] result@.contains(x) <==> (r0.contains(x)
                    || (node.intervals@.take(k as int).contains(x) && x.holds(point))),
            decreases node.intervals.len() - k,
        {
            let interval = node.intervals[k];
            assert(node.intervals@.take(k + 1) =~= node.intervals@.take(k as int).push(interval));
            if interval.contains(point) {
                push_unique(result, interval);
            }
            k = k + 1;
        }
        assert(node.intervals@.take(node.intervals@.len() as int) =~= node.intervals@);
        let ghost r1 = result@;
        if let Some(left_child) = node.left_child {
            if point < node.center {
                self.search_internal(left_child, point, result);
            }
        }
        let ghost r2 = result@;
        if let Some(right_child) = node.right_child {
            if point > node.center {
                self.search_internal(right_child, point, result);
            }
        }
        proof {
            let sets = self.subtrees@;
            assert forall|x: Interval| #[trigger] result@.contains(x) <==> (r0.contains(x)
                || (sets[node_index as int].contains(x) && x.holds(point))) by {
                if let Some(c) = node.left_child {
                    if sets[c as int].contains(x) {
                        assert(x.right < node.center);
                    }
                }
                if let Some(c) = node.right_child {
                    if sets[c as int].contains(x) {
                        assert(x.left > node.center);
                    }
                }
            }
        }
    }

    /// The intervals of the tree that hold `point`, ordered by their left end.
    pub fn search_overlaps_for_point(&self, point: u64) -> (r: Vec<Interval>)
        requires
            self.wf(),
        ensures
            r@.no_duplicates(),
            sorted_by_left(r@),
            forall|x: Interval| #[trigger] r@.contains(x) <==> (self.intervals().contains(x) && x.holds(point)),
    {
        let mut result: Vec<Interval> = Vec::new();
        self.search_internal(0, point, &mut result);
        to_ordered_vec(result)
    }

    /// The intervals of the tree that hold one of `points`, ordered by their left end.
    pub fn search_overlaps_for_points(&self, points: &Vec<u64>) -> (r: Vec<Interval>)
        requires
            self.wf(),
        ensures
            r@.no_duplicates(),
            sorted_by_left(r@),
            forall|x: Interval| #[trigger] r@.contains(x) <==> (self.intervals().contains(x)
                && exists|k: int| 0 <= k < points@.len() && x.holds(#[trigger] points@[k])),
    {
        let mut result: Vec<Interval> = Vec::new();
        let mut i: usize = 0;
        while i < points.len()
            invariant
                self.wf(),
                i <= points@.len(),
                result@.no_duplicates(),
                forall|x: Interval| #[trigger] result@.contains(x) <==> (self.intervals().contains(x)
                    && exists|k: int| 0 <= k < i && x.holds(#[trigger] points@[k])),
            decreases points.len() - i,
        {
            let ghost r0 = result@;
            self.search_internal(0, points[i], &mut result);
            proof {
                assert forall|x: Interval| #[trigger] result@.contains(x) <==> (self.intervals().contains(x)
                    && exists|k: int| 0 <= k < i + 1 && x.holds(#[trigger] points@[k])) by {
                    if self.intervals().contains(x) && x.holds(points@[i as int]) {
                        assert(self.subtrees@[0].contains(x));
                    }
                    if exists|k: int| 0 <= k < i + 1 && x.holds(#[trigger] points@[k]) {
                        let k = choose|k: int| 0 <= k < i + 1 && x.holds(#[trigger] points@[k]);
                        if k < i {
                            assert(r0.contains(x) || !self.intervals().contains(x));
                        }
                    }
                }
            }
            i = i + 1;
        }
        to_ordered_vec(result)
    }

    /// The intervals of the tree that hold one of the points the range
    /// creator gives for `[left, right]`, ordered by their left end.
    pub fn search_overlaps_for_interval(&self, left: u64, right: u64) -> (r: Vec<Interval>)
        where R: Fn(&u64, &u64) -> Vec<u64>,
        requires
            self.wf(),
            call_requires(self.creator(), (&left, &right)),
        ensures
            exists|points: Vec<u64>| #[trigger] call_ensures(self.creator(), (&left, &right), points)
                && forall|x: Interval| #[trigger] r@.contains(x) <==> (self.intervals().contains(x)
                    && exists|k: int| 0 <= k < points@.len() && x.holds(#[trigger] points@[k])),
    {
        let points = (self.range_creator)(&left, &right);
        self.search_overlaps_for_points(&points)
    }

    /// The intervals of the tree that lie within `[left, right]` and start
    /// below `right`, ordered by their left end; none when `left` is not
    /// below `right`. The search looks at `left` and at the boundaries from
    /// `left` up to, not including, `right`.
    pub fn search_envelopes(&self, left: u64, right: u64) -> (r: Vec<Interval>)
        requires
            self.wf(),
        ensures
            r@.no_duplicates(),
            sorted_by_left(r@),
            forall|x: Interval| #[trigger] r@.contains(x) <==> (left < right && self.intervals().contains(x)
                && left <= x.left && x.left < right && x.left <= x.right && x.right <= right),
    {
        if left >= right {
            return Vec::new();
        }
        let ghost all = self.subtrees@[0];
        let mut result: Vec<Interval> = Vec::new();
        self.search_internal(0, left, &mut result);
        let mut i: usize = 0;
        while i < self.boundaries.len()
            invariant
                self.wf(),
                all == self.subtrees@[0],
                i <= self.boundaries@.len(),
                result@.no_duplicates(),
                forall|x: Interval| #[trigger] result@.contains(x) ==> all.contains(x) && x.left <= x.right && x.left < right,
                forall|k: int, x: Interval| #![trigger self.boundaries@[k], all.contains(x)]
                    0 <= k < i && left <= self.boundaries@[k] < right && all.contains(x) && x.holds(self.boundaries@[k])
                    ==> result@.contains(x),
            decreases self.boundaries.len() - i,
        {
            let b = self.boundaries[i];
            if left <= b && b < right {
                self.search_internal(0, b, &mut result);
            }
            i = i + 1;
        }
        let mut filtered: Vec<Interval> = Vec::new();
        let mut k: usize = 0;
        while k < result.len()
            invariant
                k <= result@.len(),
                result@.no_duplicates(),
                filtered@.no_duplicates(),
                forall|y: Interval| #[trigger] result@.contains(y) ==> y.left < right,
                forall|y: Interval| #[trigger] filtered@.contains(y) <==> (result@.take(k as int).contains(y) && left <= y.left
                    && y.right <= right),
            decreases result.len() - k,
        {
            let x = result[k];
            assert(result@.take(k + 1) =~= result@.take(k as int).push(x));
            assert(!result@.take(k as int).contains(x));
            if left <= x.left && x.right <= right {
                assert(!filtered@.contains(x));
                filtered.push(x);
            }
            k = k + 1;
        }
        proof {
            assert(result@.take(result@.len() as int) =~= result@);
            assert forall|x: Interval| #[trigger] filtered@.contains(x) <==> (left < right && self.intervals().contains(x)
                && left <= x.left && x.left < right && x.left <= x.right && x.right <= right) by {
                if all.contains(x) && left <= x.left && x.left < right && x.left <= x.right && x.right <= right {
                    let j = choose|j: int| 0 <= j < self.boundaries@.len() && self.boundaries@[j] == x.left;
                    assert(x.holds(self.boundaries@[j]));
                    assert(result@.contains(x));
                }
                if filtered@.contains(x) {
                    assert(result@.contains(x));
                }
            }
        }
        to_ordered_vec(filtered)
    }

    /// The nodes of the tree, each as its left child, right child, center and intervals.
    pub fn dump_nodes(&self) -> (r: Vec<(Option<usize>, Option<usize>, u64, Vec<Interval>)>)
        ensures
            r@.len() == self.nodes_view().len(),
            forall|i: int| 0 <= i < r@.len() ==> (#[trigger] r@[i]).0 == self.nodes_view()[i].0 && r@[i].1 == self.nodes_view()[i].1
                && r@[i].2 == self.nodes_view()[i].2 && r@[i].3@ == self.nodes_view()[i].3,
    {
        let mut nodes: Vec<(Option<usize>, Option<usize>, u64, Vec<Interval>)> = Vec::new();
        let mut i: usize = 0;
        while i < self.nodes.len()
            invariant
                i <= self.nodes@.len(),
                nodes@.len() == i,
                forall|j: int| 0 <= j < i ==> (#[trigger] nodes@[j]).0 == self.nodes_view()[j].0 && nodes@[j].1 == self.nodes_view()[j].1
                    && nodes@[j].2 == self.nodes_view()[j].2 && nodes@[j].3@ == self.nodes_view()[j].3,
            decreases self.nodes.len() - i,
        {
            let node = &self.nodes[i];
            let mut copy: Vec<Interval> = Vec::new();
            let mut k: usize = 0;
            while k < node.intervals.len()
                invariant
                    k <= node.intervals@.len(),
                    copy@ == node.intervals@.take(k as int),
                decreases node.intervals.len() - k,
            {
                copy.push(node.intervals[k]);
                assert(node.intervals@.take(k + 1) =~= node.intervals@.take(k as int).push(node.intervals@[k as int]));
                k = k + 1;
            }
            assert(node.intervals@.take(node.intervals@.len() as int) =~= node.intervals@);
            nodes.push((node.left_child, node.right_child, node.center, copy));
            i = i + 1;
        }
        nodes
    }
}

proof fn lemma_subtree_within_root(nodes: Seq<Node>, sets: Seq<Set<Interval>>, i: int)
    requires
        nodes.len() == sets.len(),
        nodes.len() <= usize::MAX,
        0 <= i < nodes.len(),
        forall|k: int| 0 <= k < nodes.len() ==> #[trigger] node_ok(nodes, sets, nodes.len() as int, k),
        has_parents(nodes, nodes.len() as int),
    ensures
        forall|x: Interval| #[trigger] sets[i].contains(x) ==> sets[0].contains(x),
    decreases i,
{
    if i > 0 {
        assert(has_parent(nodes, i));
        let p = choose|p: int| 0 <= p < i && p < nodes.len() && #[trigger] child_of(nodes, p, i);
        lemma_subtree_within_root(nodes, sets, p);
        assert(node_ok(nodes, sets, nodes.len() as int, p));
        assert forall|x: Interval| #[trigger] sets[i].contains(x) implies sets[0].contains(x) by {
            assert((i as usize) as int == i);
            assert(sets[p].contains(x));
        }
    }
}

proof fn lemma_subtree_in_nodes(nodes: Seq<Node>, sets: Seq<Set<Interval>>, i: int, x: Interval)
    requires
        nodes.len() == sets.len(),
        0 <= i < nodes.len(),
        forall|k: int| 0 <= k < nodes.len() ==> #[trigger] node_ok(nodes, sets, nodes.len() as int, k),
        sets[i].contains(x),
    ensures
        exists|j: int| i <= j < nodes.len() && (#[trigger] nodes[j]).intervals@.contains(x),
    decreases nodes.len() - i,
{
    assert(node_ok(nodes, sets, nodes.len() as int, i));
    if !nodes[i].intervals@.contains(x) {
        if let Some(c) = nodes[i].left_child {
            if sets[c as int].contains(x) {
                lemma_subtree_in_nodes(nodes, sets, c as int, x);
            }
        }
        if let Some(c) = nodes[i].right_child {
            if sets[c as int].contains(x) {
                lemma_subtree_in_nodes(nodes, sets, c as int, x);
            }
        }
    }
}

/// The nodes hold exactly the intervals of the tree, each in one node only;
/// each node's intervals hold its center, and the children of a node come
/// after it.
pub proof fn lemma_nodes_hold_intervals<R>(tree: &IntervalTree<R>)
    requires
        tree.wf(),
    ensures
        forall|j: int, k: int, x: Interval| 0 <= j < tree.nodes_view().len() && 0 <= k < tree.nodes_view().len()
            && #[trigger] tree.nodes_view()[j].3.contains(x) && #[trigger] tree.nodes_view()[k].3.contains(x) ==> j == k,
        forall|x: Interval| tree.intervals().contains(x) <==> exists|j: int| 0 <= j < tree.nodes_view().len()
            && (#[trigger] tree.nodes_view()[j]).3.contains(x),
        forall|j: int, x: Interval| 0 <= j < tree.nodes_view().len() && #[trigger] tree.nodes_view()[j].3.contains(x)
            ==> x.holds(tree.nodes_view()[j].2),
        forall|j: int| 0 <= j < tree.nodes_view().len() ==> ((#[trigger] tree.nodes_view()[j]).0 matches Some(c) ==> j < c < tree.nodes_view().len())
            && (tree.nodes_view()[j].1 matches Some(c) ==> j < c < tree.nodes_view().len()),
{
    let nodes = tree.nodes@;
    let sets = tree.subtrees@;
    assert forall|j: int, k: int, x: Interval| 0 <= j < tree.nodes_view().len() && 0 <= k < tree.nodes_view().len()
        && #[trigger] tree.nodes_view()[j].3.contains(x) && #[trigger] tree.nodes_view()[k].3.contains(x) implies j == k by {
        assert(tree.nodes_view()[j].3 == nodes[j].intervals@);
        assert(tree.nodes_view()[k].3 == nodes[k].intervals@);
        if j < k {
            assert(nodes[j].intervals@.contains(x));
        } else if k < j {
            assert(nodes[k].intervals@.contains(x));
        }
    }
    assert forall|x: Interval| tree.intervals().contains(x) <==> exists|j: int| 0 <= j < tree.nodes_view().len()
        && (#[trigger] tree.nodes_view()[j]).3.contains(x) by {
        if tree.intervals().contains(x) {
            lemma_subtree_in_nodes(nodes, sets, 0, x);
            let j = choose|j: int| 0 <= j < nodes.len() && (#[trigger] nodes[j]).intervals@.contains(x);
            assert(tree.nodes_view()[j].3 == nodes[j].intervals@);
        }
        if exists|j: int| 0 <= j < tree.nodes_view().len() && (#[trigger] tree.nodes_view()[j]).3.contains(x) {
            let j = choose|j: int| 0 <= j < tree.nodes_view().len() && (#[trigger] tree.nodes_view()[j]).3.contains(x);
            assert(tree.nodes_view()[j].3 == nodes[j].intervals@);
            assert(node_ok(nodes, sets, nodes.len() as int, j));
            assert(sets[j].contains(x));
            lemma_subtree_within_root(nodes, sets, j);
        }
    }
    assert forall|j: int, x: Interval| 0 <= j < tree.nodes_view().len() && #[trigger] tree.nodes_view()[j].3.contains(x)
        implies x.holds(tree.nodes_view()[j].2) by {
        assert(node_ok(nodes, sets, nodes.len() as int, j));
        assert(tree.nodes_view()[j].3 == nodes[j].intervals@);
    }
    assert forall|j: int| 0 <= j < tree.nodes_view().len() implies ((#[trigger] tree.nodes_view()[j]).0 matches Some(c) ==> j < c < tree.nodes_view().len())
        && (tree.nodes_view()[j].1 matches Some(c) ==> j < c < tree.nodes_view().len()) by {
        assert(node_ok(nodes, sets, nodes.len() as int, j));
    }
}

/// The centre law of the tree: the tree holds the intervals of the subtree
/// of its first node; the subtree of a node holds the node's own intervals
/// and those of its children's subtrees, and nothing else; the subtree of a
/// left child ends before the node's center and that of a right child starts
/// after it.
pub proof fn lemma_subtrees_around_centers<R>(tree: &IntervalTree<R>)
    requires
        tree.wf(),
    ensures
        tree.intervals() == tree.subtree(0),
        forall|j: int, x: Interval| 0 <= j < tree.nodes_view().len() ==> (#[trigger] tree.subtree(j).contains(x) <==> (
            tree.nodes_view()[j].3.contains(x) || tree.left_subtree(j).contains(x) || tree.right_subtree(j).contains(x))),
        forall|j: int, x: Interval| 0 <= j < tree.nodes_view().len() && #[trigger] tree.left_subtree(j).contains(x)
            ==> x.right < tree.nodes_view()[j].2,
        forall|j: int, x: Interval| 0 <= j < tree.nodes_view().len() && #[trigger] tree.right_subtree(j).contains(x)
            ==> x.left > tree.nodes_view()[j].2,
{
    let nodes = tree.nodes@;
    let sets = tree.subtrees@;
    assert forall|j: int, x: Interval| 0 <= j < tree.nodes_view().len() implies (#[trigger] tree.subtree(j).contains(x) <==> (
        tree.nodes_view()[j].3.contains(x) || tree.left_subtree(j).contains(x) || tree.right_subtree(j).contains(x))) by {
        assert(node_ok(nodes, sets, nodes.len() as int, j));
    }
    assert forall|j: int, x: Interval| 0 <= j < tree.nodes_view().len() && #[trigger] tree.left_subtree(j).contains(x)
        implies x.right < tree.nodes_view()[j].2 by {
        assert(node_ok(nodes, sets, nodes.len() as int, j));
    }
    assert forall|j: int, x: Interval| 0 <= j < tree.nodes_view().len() && #[trigger] tree.right_subtree(j).contains(x)
        implies x.left > tree.nodes_view()[j].2 by {
        assert(node_ok(nodes, sets, nodes.len() as int, j));
    }
}

} // verus!
