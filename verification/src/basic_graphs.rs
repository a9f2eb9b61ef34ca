//! Directed graphs over integer vertices, given as a vertex list and an edge
//! list, with breadth-first and depth-first search.

use crate::search::{
    confined, continued, covers, explore, in_level_order, lemma_continued_prepend, lemma_explore,
    lemma_explore_fuel, lemma_push_to_set, lemma_start_covered, lemma_step_covered,
    lemma_unseen_next, reachable, unseen, visit, Order,
};
use std::collections::{HashSet, VecDeque};
use vstd::prelude::*;
use vstd::std_specs::hash::*;

verus! {

/// A directed edge: the vertex it leaves and the vertex it enters.
#[derive(Debug, Clone, Copy, PartialEq, Eq, Structural, Hash)]
pub struct Edge(pub usize, pub usize);

impl From<(usize, usize)> for Edge {
    fn from(pair: (usize, usize)) -> (e: Self) {
        Self(pair.0, pair.1)
    }
}

impl vstd::std_specs::convert::FromSpecImpl<(usize, usize)> for Edge {
    open spec fn obeys_from_spec() -> bool {
        true
    }

    open spec fn from_spec(pair: (usize, usize)) -> Self {
        Edge(pair.0, pair.1)
    }
}

/// A vertex, known by its number.
#[derive(Debug, Clone, Copy, PartialEq, Eq, Structural, Hash)]
pub struct Node(pub usize);

impl From<usize> for Node {
    fn from(v: usize) -> (n: Self) {
        Self(v)
    }
}

impl vstd::std_specs::convert::FromSpecImpl<usize> for Node {
    open spec fn obeys_from_spec() -> bool {
        true
    }

    open spec fn from_spec(v: usize) -> Self {
        Node(v)
    }
}

/// The numbers of a sequence of vertices.
pub open spec fn ids(nodes: Seq<Node>) -> Seq<usize> {
    nodes.map_values(|n: Node| n.0)
}

/// The endpoints of a sequence of edges.
pub open spec fn pairs(edges: Seq<Edge>) -> Seq<(usize, usize)> {
    edges.map_values(|e: Edge| (e.0, e.1))
}

/// The test whether an edge leaves `v`.
pub open spec fn leaves(v: usize) -> spec_fn((usize, usize)) -> bool {
    |e: (usize, usize)| e.0 == v
}

/// The vertex that an edge enters.
pub open spec fn enters() -> spec_fn((usize, usize)) -> usize {
    |e: (usize, usize)| e.1
}

/// The vertices that those of the given edges that leave `v` enter, in the
/// order of the edges and as often as there are such edges.
pub open spec fn heads_from(edges: Seq<(usize, usize)>, v: usize) -> Seq<usize> {
    edges.filter(leaves(v)).map_values(enters())
}

/// A graph as mathematics: the numbers of its vertices and the endpoints of
/// its edges, both in the order given.
pub struct GraphView {
    pub vertices: Seq<usize>,
    pub edges: Seq<(usize, usize)>,
}

impl GraphView {
    /// Both endpoints of every edge are vertices.
    pub open spec fn wf(self) -> bool {
        forall|i: int|
            0 <= i < self.edges.len() ==> self.vertices.contains((#[trigger] self.edges[i]).0)
                && self.vertices.contains(self.edges[i].1)
    }

    /// The vertices that the edges leaving `v` enter, in edge-list order and
    /// as often as there are such edges.
    pub open spec fn successors(self, v: usize) -> Seq<usize> {
        heads_from(self.edges, v)
    }

    /// The graph as a search space.
    pub open spec fn adj(self) -> spec_fn(usize) -> Seq<usize> {
        |v: usize| self.successors(v)
    }

    /// The vertices that some edge enters.
    pub open spec fn entered(self) -> Set<usize> {
        self.edges.map_values(enters()).to_set()
    }

    /// There is a walk along the edges from `from` to `to`.
    pub open spec fn reaches(self, from: usize, to: usize) -> bool {
        reachable(self.adj(), from, to)
    }

    /// The vertices that a search from `root` for `target` visits, in the
    /// order of the visits and up to the target, or `None` if it does not
    /// come to the target. No search takes more vertices from its work list
    /// than the graph has edges, and one more.
    pub open spec fn history(self, order: Order, root: usize, target: usize) -> Option<
        Seq<usize>,
    > {
        explore(self.adj(), order, root, target, self.edges.len() + 1)
    }
}

impl GraphView {
    /// Every neighbour is a vertex that some edge enters, and there are at
    /// most as many of those as there are edges.
    pub proof fn lemma_confined(self, work: Seq<usize>)
        ensures
            confined(self.adj(), self.entered(), work),
            self.entered().finite(),
            self.entered().len() <= self.edges.len(),
    {
        let heads = self.edges.map_values(enters());
        vstd::seq_lib::seq_to_set_is_finite(heads);
        heads.lemma_cardinality_of_set();
        assert forall|v: usize, x: usize| #[trigger]
            (self.adj())(v).contains(x) implies self.entered().contains(x) by {
            let out = self.edges.filter(leaves(v));
            let i = choose|i: int|
                0 <= i < self.successors(v).len() && self.successors(v)[i] == x;
            self.edges.lemma_filter_contains_rev(leaves(v), out[i]);
            let j = choose|j: int| 0 <= j < self.edges.len() && self.edges[j] == out[i];
            assert(heads[j] == x);
        }
    }

    /// A search finds its target exactly when there is a walk from the root
    /// to it. Its history then starts at the root and ends at the target,
    /// which occurs nowhere else in it; the root reaches every vertex in it;
    /// every vertex in it but the first is entered by an edge; and no vertex
    /// occurs in it twice. The history of a breadth-first search goes level
    /// by level: no vertex comes before one that fewer edges lead to from the
    /// root.
    pub proof fn lemma_history(self, order: Order, root: usize, target: usize)
        ensures
            self.history(order, root, target) is Some <==> self.reaches(root, target),
            self.history(order, root, target) matches Some(h) ==> {
                &&& h.len() > 0
                &&& h.first() == root
                &&& h.last() == target
                &&& forall|i: int| 0 <= i < h.len() - 1 ==> h[i] != target
                &&& forall|i: int| 0 <= i < h.len() ==> self.reaches(root, #[trigger] h[i])
                &&& forall|i: int| 0 < i < h.len() ==> self.entered().contains(#[trigger] h[i])
                &&& h.no_duplicates()
                &&& order is BreadthFirst ==> in_level_order(self.adj(), root, h)
            },
    {
        self.lemma_confined(seq![root]);
        lemma_explore(self.adj(), order, self.entered(), root, target, self.edges.len() + 1);
    }

    /// The history does not depend on the bound that its definition puts on
    /// the number of visits: every bound above the number of edges gives the
    /// same.
    pub proof fn lemma_history_fuel(self, order: Order, root: usize, target: usize, fuel: nat)
        requires
            fuel > self.edges.len(),
        ensures
            explore(self.adj(), order, root, target, fuel) == self.history(order, root, target),
    {
        self.lemma_confined(seq![root]);
        lemma_explore_fuel(
            self.adj(),
            order,
            self.entered(),
            root,
            target,
            fuel,
            self.edges.len() + 1,
        );
    }

    /// Two searches of one graph in one order, from the same root for the
    /// same target, give the same result.
    pub proof fn lemma_history_repeats(
        self,
        order: Order,
        root: usize,
        target: usize,
        first: Option<Seq<usize>>,
        second: Option<Seq<usize>>,
    )
        requires
            first == self.history(order, root, target),
            second == self.history(order, root, target),
        ensures
            first == second,
    {
    }

    /// In a well-formed graph every vertex that an edge enters is a vertex
    /// of the graph.
    pub proof fn lemma_entered_are_vertices(self)
        requires
            self.wf(),
        ensures
            forall|x: usize| #[trigger] self.entered().contains(x) ==> self.vertices.contains(x),
    {
    }
}

/// The model of the graph with these vertices and edges.
pub open spec fn graph_of(vertices: Seq<Node>, edges: Seq<Edge>) -> GraphView {
    GraphView { vertices: ids(vertices), edges: pairs(edges) }
}

/// The answer to a vertex list and an edge list that do not make a graph:
/// some edge leaves or enters a vertex that is not in the list.
#[derive(Debug, Clone, Copy, PartialEq, Eq, Structural)]
pub struct InvalidGraph;

/// A directed graph over borrowed vertex and edge lists. Both endpoints of
/// each of its edges are among its vertices. Nothing changes it once it is
/// made.
#[allow(dead_code)]
pub struct Graph<'a> {
    edges: &'a [Edge],
    vertices: &'a [Node],
}

impl<'a> View for Graph<'a> {
    type V = GraphView;

    closed spec fn view(&self) -> GraphView {
        graph_of(self.vertices@, self.edges@)
    }
}

impl<'a> Graph<'a> {
    #[verifier::type_invariant]
    spec fn inv(&self) -> bool {
        self@.wf()
    }

    /// The graph with these vertices and edges, which must fit together:
    /// `validate` tells whether they do.
    pub fn new(vertices: &'a [Node], edges: &'a [Edge]) -> (g: Self)
        requires
            graph_of(vertices@, edges@).wf(),
        ensures
            g@ == graph_of(vertices@, edges@),
            g@.wf(),
    {
        Self { vertices, edges }
    }

    /// The graph with these vertices and edges, or `InvalidGraph` if an edge
    /// has an endpoint that is not among the vertices.
    pub fn try_new(vertices: &'a [Node], edges: &'a [Edge]) -> (r: Result<Self, InvalidGraph>)
        ensures
            r is Ok <==> graph_of(vertices@, edges@).wf(),
            r matches Ok(g) ==> g@ == graph_of(vertices@, edges@),
    {
        if Self::validate(vertices, edges) {
            Ok(Self::new(vertices, edges))
        } else {
            Err(InvalidGraph)
        }
    }

    /// Whether both endpoints of every edge are among the vertices.
    pub fn validate(vertices: &'a [Node], edges: &'a [Edge]) -> (ok: bool)
        ensures
            ok == graph_of(vertices@, edges@).wf(),
    {
        broadcast use group_hash_axioms;

        let ghost model = graph_of(vertices@, edges@);
        let mut hs: HashSet<usize> = HashSet::new();
        let mut i: usize = 0;
        while i < vertices.len()
            invariant
                i <= vertices.len(),
                forall|x: usize| #[trigger]
                    hs@.contains(x) <==> ids(vertices@).take(i as int).contains(x),
            decreases vertices.len() - i,
        {
            let ghost after = ids(vertices@).take(i + 1);
            hs.insert(vertices[i].0);
            proof {
                assert forall|x: usize| #[trigger] hs@.contains(x) <==> after.contains(x) by {
                    if x == vertices@[i as int].0 {
                        assert(after[i as int] == x);
                    }
                }
            }
            i += 1;
        }
        assert(ids(vertices@).take(i as int) == model.vertices);
        let mut k: usize = 0;
        while k < edges.len()
            invariant
                k <= edges.len(),
                model == graph_of(vertices@, edges@),
                forall|x: usize| #[trigger] hs@.contains(x) <==> model.vertices.contains(x),
                forall|j: int|
                    0 <= j < k ==> model.vertices.contains((#[trigger] model.edges[j]).0)
                        && model.vertices.contains(model.edges[j].1),
            decreases edges.len() - k,
        {
            let e = &edges[k];
            assert(model.edges[k as int] == (e.0, e.1));
            if !(hs.contains(&e.1) && hs.contains(&e.0)) {
                return false;
            }
            k += 1;
        }
        true
    }
}

impl Node {
    /// The vertices that the edges leaving this vertex enter, in edge-list
    /// order: a scan of all edges of the graph. Each of them is a vertex of
    /// the graph.
    pub fn neighbours(&self, g: &Graph) -> (r: VecDeque<Node>)
        ensures
            ids(r@) == g@.successors(self.0),
            forall|i: int| 0 <= i < r@.len() ==> g@.vertices.contains((#[trigger] r@[i]).0),
    {
        proof {
            use_type_invariant(g);
        }
        let ghost model = g@;
        let mut out: VecDeque<Node> = VecDeque::new();
        let mut i: usize = 0;
        proof {
            lemma_heads_from_none(self.0);
        }
        while i < g.edges.len()
            invariant
                i <= g.edges.len(),
                model == g@,
                model.wf(),
                ids(out@) == heads_from(model.edges.take(i as int), self.0),
                forall|j: int|
                    0 <= j < out@.len() ==> model.vertices.contains((#[trigger] out@[j]).0),
            decreases g.edges.len() - i,
        {
            let e = &g.edges[i];
            proof {
                lemma_heads_from_push(model.edges.take(i as int), model.edges[i as int], self.0);
                assert(model.edges.take(i + 1) == model.edges.take(i as int).push(
                    model.edges[i as int],
                ));
            }
            if e.0 == self.0 {
                out.push_back(Node(e.1));
            }
            i += 1;
        }
        assert(model.edges.take(i as int) == model.edges);
        out
    }
}

/// The view of a history, if there is one.
pub open spec fn history_view(r: Option<Vec<usize>>) -> Option<Seq<usize>> {
    match r {
        Some(h) => Some(h@),
        None => None,
    }
}

/// Breadth-first search: the vertices of `g` in the order in which a search
/// from `root` takes them from its queue, up to and including `target`, or
/// `None` if there is no walk from `root` to `target`.
///
/// The root is marked and queued. The vertex at the front of the queue is
/// taken and joins the history; if it is the target the search ends;
/// otherwise those of its neighbours that are not marked are marked and
/// queued at the back, in neighbour order. The history is the order of the
/// visits, not a walk: two vertices next to each other in it need not be
/// joined by an edge. No vertex is visited twice, and none before one that
/// fewer edges lead to from the root.
pub fn bfs(g: &Graph, root: &Node, target: &Node) -> (r: Option<Vec<usize>>)
    ensures
        history_view(r) == g@.history(Order::BreadthFirst, root.0, target.0),
        r is Some <==> g@.reaches(root.0, target.0),
        r matches Some(h) ==> {
            &&& h@.len() > 0
            &&& h@.first() == root.0
            &&& h@.last() == target.0
            &&& forall|i: int| 0 <= i < h@.len() - 1 ==> h@[i] != target.0
            &&& forall|i: int| 0 <= i < h@.len() ==> g@.reaches(root.0, #[trigger] h@[i])
            &&& forall|i: int| 0 < i < h@.len() ==> g@.vertices.contains(#[trigger] h@[i])
            &&& h@.no_duplicates()
            &&& in_level_order(g@.adj(), root.0, h@)
        },
{
    broadcast use group_hash_axioms;

    let ghost model = g@;
    let ghost adj = model.adj();
    let ghost universe = model.entered();
    let ghost mut fuel: nat = model.edges.len() + 1;
    proof {
        use_type_invariant(g);
        model.lemma_confined(seq![root.0]);
        model.lemma_history(Order::BreadthFirst, root.0, target.0);
        model.lemma_entered_are_vertices();
        lemma_start_covered(universe, root.0, fuel);
    }
    let mut visited: HashSet<usize> = HashSet::new();
    let mut history: Vec<usize> = Vec::new();
    let mut queue: VecDeque<usize> = VecDeque::new();

    visited.insert(root.0);
    queue.push_back(root.0);

    while queue.len() > 0
        invariant
            model == g@,
            adj == model.adj(),
            confined(adj, universe, queue@),
            covers(universe, queue@, visited@, fuel),
            continued(history@, visit(adj, Order::BreadthFirst, target.0, queue@, visited@, fuel))
                == model.history(Order::BreadthFirst, root.0, target.0),
        decreases fuel,
    {
        let ghost work = queue@;
        let ghost seen = visited@;
        let ghost past = history@;
        let current = queue.pop_front().unwrap();
        history.push(current);
        assert(fuel > 0);
        if current == target.0 {
            proof {
                use_type_invariant(g);
                model.lemma_history(Order::BreadthFirst, root.0, target.0);
                model.lemma_entered_are_vertices();
            }
            return Some(history);
        }
        let neighbours = Node(current).neighbours(g);
        let ghost cands = ids(neighbours@);
        let mut i: usize = 0;
        while i < neighbours.len()
            invariant
                i <= neighbours.len(),
                work.len() > 0,
                cands == ids(neighbours@),
                queue@ == work.drop_first() + unseen(cands.take(i as int), seen),
                visited@ == seen.union(unseen(cands.take(i as int), seen).to_set()),
            decreases neighbours.len() - i,
        {
            let neighbour = neighbours[i];
            let ghost got = unseen(cands.take(i as int), seen);
            proof {
                lemma_unseen_next(cands, seen, i as int);
            }
            if !visited.contains(&neighbour.0) {
                visited.insert(neighbour.0);
                queue.push_back(neighbour.0);
                proof {
                    lemma_push_to_set(got, neighbour.0);
                }
            }
            i += 1;
        }
        proof {
            assert(cands.take(i as int) == cands);
            lemma_step_covered(adj, Order::BreadthFirst, universe, work, seen, fuel);
            lemma_continued_prepend(
                past,
                current,
                visit(
                    adj,
                    Order::BreadthFirst,
                    target.0,
                    queue@,
                    visited@,
                    (fuel - 1) as nat,
                ),
            );
            fuel = (fuel - 1) as nat;
        }
    }
    proof {
        model.lemma_history(Order::BreadthFirst, root.0, target.0);
    }
    None
}

/// Depth-first search: the vertices of `g` in the order in which a search
/// from `root` takes them from its work list, up to and including `target`,
/// or `None` if there is no walk from `root` to `target`.
///
/// The root is marked and put on the work list, once. The vertex at the
/// front of the work list is taken and joins the history; if it is the
/// target the search ends; otherwise its neighbours are looked at from the
/// last to the first, and each that is not marked is marked and put at the
/// front. A vertex is marked when it is discovered, so none waits on the
/// work list twice and none is visited twice.
pub fn dfs(g: &Graph, root: &Node, target: &Node) -> (r: Option<Vec<usize>>)
    ensures
        history_view(r) == g@.history(Order::DepthFirst, root.0, target.0),
        r is Some <==> g@.reaches(root.0, target.0),
        r matches Some(h) ==> {
            &&& h@.len() > 0
            &&& h@.first() == root.0
            &&& h@.last() == target.0
            &&& forall|i: int| 0 <= i < h@.len() - 1 ==> h@[i] != target.0
            &&& forall|i: int| 0 <= i < h@.len() ==> g@.reaches(root.0, #[trigger] h@[i])
            &&& forall|i: int| 0 < i < h@.len() ==> g@.vertices.contains(#[trigger] h@[i])
            &&& h@.no_duplicates()
        },
{
    broadcast use group_hash_axioms;

    let ghost model = g@;
    let ghost adj = model.adj();
    let ghost universe = model.entered();
    let ghost mut fuel: nat = model.edges.len() + 1;
    proof {
        model.lemma_confined(seq![root.0]);
        lemma_start_covered(universe, root.0, fuel);
    }
    let mut visited: HashSet<usize> = HashSet::new();
    let mut history: Vec<usize> = Vec::new();
    let mut queue: VecDeque<usize> = VecDeque::new();

    visited.insert(root.0);
    queue.push_back(root.0);

    while queue.len() > 0
        invariant
            model == g@,
            adj == model.adj(),
            confined(adj, universe, queue@),
            covers(universe, queue@, visited@, fuel),
            continued(history@, visit(adj, Order::DepthFirst, target.0, queue@, visited@, fuel))
                == model.history(Order::DepthFirst, root.0, target.0),
        decreases fuel,
    {
        let ghost work = queue@;
        let ghost seen = visited@;
        let ghost past = history@;
        let current = queue.pop_front().unwrap();
        history.push(current);
        if current == target.0 {
            proof {
                use_type_invariant(g);
                model.lemma_history(Order::DepthFirst, root.0, target.0);
                model.lemma_entered_are_vertices();
            }
            return Some(history);
        }
        let neighbours = Node(current).neighbours(g);
        let ghost cands = ids(neighbours@).reverse();
        let mut i: usize = neighbours.len();
        while i > 0
            invariant
                i <= neighbours.len(),
                work.len() > 0,
                cands == ids(neighbours@).reverse(),
                queue@ == unseen(cands.take(neighbours.len() - i), seen).reverse()
                    + work.drop_first(),
                visited@ == seen.union(unseen(cands.take(neighbours.len() - i), seen).to_set()),
            decreases i,
        {
            i -= 1;
            let neighbour = neighbours[i];
            let ghost k = neighbours.len() - i - 1;
            let ghost got = unseen(cands.take(k), seen);
            proof {
                lemma_unseen_next(cands, seen, k);
            }
            if visited.insert(neighbour.0) {
                queue.push_front(neighbour.0);
                proof {
                    lemma_push_to_set(got, neighbour.0);
                }
            }
        }
        proof {
            assert(cands.take(neighbours.len() as int) == cands);
            lemma_step_covered(adj, Order::DepthFirst, universe, work, seen, fuel);
            lemma_continued_prepend(
                past,
                current,
                visit(adj, Order::DepthFirst, target.0, queue@, visited@, (fuel - 1) as nat),
            );
            fuel = (fuel - 1) as nat;
        }
    }
    proof {
        model.lemma_history(Order::DepthFirst, root.0, target.0);
    }
    None
}

/// No edges, no heads.
proof fn lemma_heads_from_none(v: usize)
    ensures
        heads_from(Seq::empty(), v) == Seq::<usize>::empty(),
{
    reveal(Seq::filter);
}

/// One more edge adds its head if it leaves `v`, and nothing otherwise.
proof fn lemma_heads_from_push(edges: Seq<(usize, usize)>, e: (usize, usize), v: usize)
    ensures
        heads_from(edges.push(e), v) == if e.0 == v {
            heads_from(edges, v).push(e.1)
        } else {
            heads_from(edges, v)
        },
{
    edges.lemma_filter_push(e, leaves(v));
    if e.0 == v {
        edges.filter(leaves(v)).lemma_push_map_commute(enters(), e);
    }
}

} // verus!
