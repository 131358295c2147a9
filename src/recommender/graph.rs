//! An undirected graph kept as adjacency lists, with weighted random walks.
//!
//! Nodes are stored once each, in insertion order; an adjacency list holds
//! the positions of a node's neighbours. What callers see is the model: a map
//! from each node (by its view) to the sequence of its neighbours.

use vstd::prelude::*;
use super::sampling::{draw_weighted, lemma_zero_total, weight_total};
use super::scoring::{count_sum, lemma_count_le_sum, lemma_count_sum_bump, lemma_count_sum_zeros};

verus! {

/// A value that can stand as a node: nodes are told apart by their views.
pub trait NodeKey: View + Sized {
    /// Whether two values denote the same node.
    fn same_node(&self, other: &Self) -> (r: bool)
        ensures
            r == (self@ == other@),
    ;

    /// A copy of the value, denoting the same node.
    fn copy_node(&self) -> (r: Self)
        ensures
            r@ == self@,
    ;
}

impl NodeKey for u8 {
    fn same_node(&self, other: &u8) -> (r: bool) {
        *self == *other
    }

    fn copy_node(&self) -> (r: u8) {
        *self
    }
}

impl NodeKey for u16 {
    fn same_node(&self, other: &u16) -> (r: bool) {
        *self == *other
    }

    fn copy_node(&self) -> (r: u16) {
        *self
    }
}

impl NodeKey for u32 {
    fn same_node(&self, other: &u32) -> (r: bool) {
        *self == *other
    }

    fn copy_node(&self) -> (r: u32) {
        *self
    }
}

impl NodeKey for u64 {
    fn same_node(&self, other: &u64) -> (r: bool) {
        *self == *other
    }

    fn copy_node(&self) -> (r: u64) {
        *self
    }
}

impl NodeKey for usize {
    fn same_node(&self, other: &usize) -> (r: bool) {
        *self == *other
    }

    fn copy_node(&self) -> (r: usize) {
        *self
    }
}

impl NodeKey for i32 {
    fn same_node(&self, other: &i32) -> (r: bool) {
        *self == *other
    }

    fn copy_node(&self) -> (r: i32) {
        *self
    }
}

impl NodeKey for i64 {
    fn same_node(&self, other: &i64) -> (r: bool) {
        *self == *other
    }

    fn copy_node(&self) -> (r: i64) {
        *self
    }
}

impl NodeKey for char {
    fn same_node(&self, other: &char) -> (r: bool) {
        *self == *other
    }

    fn copy_node(&self) -> (r: char) {
        *self
    }
}

impl NodeKey for String {
    fn same_node(&self, other: &String) -> (r: bool) {
        self.eq(other)
    }

    fn copy_node(&self) -> (r: String) {
        self.clone()
    }
}

/// The neighbours of `v`; none for a node that is not in the graph.
pub open spec fn successors_of<V>(m: Map<V, Seq<V>>, v: V) -> Seq<V> {
    if m.contains_key(v) {
        m[v]
    } else {
        Seq::empty()
    }
}

/// The number of neighbours of `v`.
pub open spec fn degree_of<V>(m: Map<V, Seq<V>>, v: V) -> nat {
    successors_of(m, v).len()
}

/// `d` is the largest degree in the graph, and 0 for a graph without edges.
pub open spec fn is_max_degree<V>(m: Map<V, Seq<V>>, d: nat) -> bool {
    &&& forall|v: V| m.contains_key(v) ==> degree_of(m, v) <= d
    &&& d == 0 || exists|v: V| m.contains_key(v) && degree_of(m, v) == d
}

/// The largest degree of the graph.
pub open spec fn max_degree_of<V>(m: Map<V, Seq<V>>) -> nat {
    choose|d: nat| is_max_degree(m, d)
}

/// The graph after inserting the node `a`: unchanged if it is there already.
pub open spec fn with_node<V>(m: Map<V, Seq<V>>, a: V) -> Map<V, Seq<V>> {
    if m.contains_key(a) {
        m
    } else {
        m.insert(a, Seq::empty())
    }
}

/// The graph after making `b` a neighbour of `a`, inserting `a` if needed.
pub open spec fn with_neighbor<V>(m: Map<V, Seq<V>>, a: V, b: V) -> Map<V, Seq<V>> {
    let s = successors_of(m, a);
    m.insert(a, if s.contains(b) { s } else { s.push(b) })
}

/// The graph after inserting the undirected edge `a`–`b`.
pub open spec fn with_edge<V>(m: Map<V, Seq<V>>, a: V, b: V) -> Map<V, Seq<V>> {
    with_neighbor(with_neighbor(m, a, b), b, a)
}

/// Every edge is recorded at both of its ends.
pub open spec fn is_symmetric<V>(m: Map<V, Seq<V>>) -> bool {
    forall|u: V, v: V|
        m.contains_key(u) && #[trigger] m[u].contains(v) ==> m.contains_key(v) && m[v].contains(u)
}

/// No node lists a neighbour twice.
pub open spec fn lists_are_sets<V>(m: Map<V, Seq<V>>) -> bool {
    forall|u: V| m.contains_key(u) ==> (#[trigger] m[u]).no_duplicates()
}

/// Inserting the ends first does not change what an edge insertion leaves.
proof fn lemma_edge_after_nodes<V>(m: Map<V, Seq<V>>, a: V, b: V)
    ensures
        with_edge(with_node(with_node(m, a), b), a, b) == with_edge(m, a, b),
{
    let m2 = with_node(with_node(m, a), b);
    assert(with_neighbor(m2, a, b) =~= with_neighbor(m, a, b).union_prefer_right(
        with_neighbor(m2, a, b),
    ));
    assert(with_edge(m2, a, b) =~= with_edge(m, a, b));
}

/// After inserting the edge `a`–`b`, each end lists the other.
pub proof fn lemma_edge_is_symmetric<V>(m: Map<V, Seq<V>>, a: V, b: V)
    ensures
        successors_of(with_edge(m, a, b), a).contains(b),
        successors_of(with_edge(m, a, b), b).contains(a),
{
    let m1 = with_neighbor(m, a, b);
    let s1 = successors_of(m, a);
    if !s1.contains(b) {
        assert(m1[a][s1.len() as int] == b);
    }
    assert(m1[a].contains(b));
    let s2 = successors_of(m1, b);
    if !s2.contains(a) {
        assert(with_edge(m, a, b)[b][s2.len() as int] == a);
    }
    if a != b {
        assert(with_edge(m, a, b)[a] == m1[a]);
    }
}

/// Inserting a node a second time changes nothing.
pub proof fn lemma_add_node_idempotent<V>(m: Map<V, Seq<V>>, a: V)
    ensures
        with_node(with_node(m, a), a) == with_node(m, a),
{
}

/// Inserting an edge a second time changes nothing: neither the neighbours,
/// nor the degrees, nor the largest degree.
pub proof fn lemma_add_edge_idempotent<V>(m: Map<V, Seq<V>>, a: V, b: V, d1: nat, d2: nat)
    requires
        is_max_degree(with_edge(m, a, b), d1),
        is_max_degree(with_edge(with_edge(m, a, b), a, b), d2),
    ensures
        with_edge(with_edge(m, a, b), a, b) == with_edge(m, a, b),
        d1 == d2,
{
    let e = with_edge(m, a, b);
    lemma_edge_is_symmetric(m, a, b);
    assert(with_neighbor(e, a, b) =~= e);
    assert(with_neighbor(e, b, a) =~= e);
    lemma_max_degree_unique(e, d1, d2);
}

/// A graph has only one largest degree.
pub proof fn lemma_max_degree_unique<V>(m: Map<V, Seq<V>>, d1: nat, d2: nat)
    requires
        is_max_degree(m, d1),
        is_max_degree(m, d2),
    ensures
        d1 == d2,
{
    if d1 != 0 {
        let v = choose|v: V| m.contains_key(v) && degree_of(m, v) == d1;
        assert(degree_of(m, v) <= d2);
    }
    if d2 != 0 {
        let v = choose|v: V| m.contains_key(v) && degree_of(m, v) == d2;
        assert(degree_of(m, v) <= d1);
    }
}

/// Some call of `f` on nodes that `u` and `v` denote gave a positive weight.
pub open spec fn passable<T: View, F: Fn(&T, &T) -> i64>(f: F, u: T::V, v: T::V) -> bool {
    exists|a: T, b: T, w: i64| a@ == u && b@ == v && w > 0 && #[trigger] f.ensures((&a, &b), w)
}

/// Some call of `f` on nodes that `u` and `v` denote gave a weight of zero or below.
pub open spec fn blocked<T: View, F: Fn(&T, &T) -> i64>(f: F, u: T::V, v: T::V) -> bool {
    exists|a: T, b: T, w: i64| a@ == u && b@ == v && w <= 0 && #[trigger] f.ensures((&a, &b), w)
}

/// `w` is a walk of at most `max_hops` nodes through `m` from `start`,
/// each hop along an edge whose weight was positive, that ends early only
/// where every way on weighed zero or below. It is empty exactly when
/// `start` is not in the graph (or no hop is allowed).
pub open spec fn is_walk<T: View, F: Fn(&T, &T) -> i64>(
    m: Map<T::V, Seq<T::V>>,
    f: F,
    start: T::V,
    max_hops: nat,
    w: Seq<T::V>,
) -> bool {
    &&& w.len() <= max_hops
    &&& w.len() == 0 <==> (max_hops == 0 || !m.contains_key(start))
    &&& w.len() > 0 ==> w[0] == start
    &&& forall|k: int| 0 <= k < w.len() ==> m.contains_key(#[trigger] w[k])
    &&& forall|k: int|
        0 <= k < w.len() - 1 ==> #[trigger] m[w[k]].contains(w[k + 1]) && passable(f, w[k], w[k + 1])
    &&& 0 < w.len() < max_hops ==> forall|v: T::V|
        #[trigger] m[w.last()].contains(v) ==> blocked(f, w.last(), v)
}

/// A walk has at most `max_hops` nodes, and, when a hop is allowed at all,
/// it is empty exactly when its start is not in the graph.
pub proof fn lemma_walk_length<T: View, F: Fn(&T, &T) -> i64>(
    m: Map<T::V, Seq<T::V>>,
    f: F,
    start: T::V,
    max_hops: nat,
    w: Seq<T::V>,
)
    requires
        is_walk(m, f, start, max_hops, w),
        max_hops > 0,
    ensures
        w.len() <= max_hops,
        w.len() == 0 <==> !m.contains_key(start),
{
}

/// Where every weight is positive and every node has a neighbour, a walk
/// from a node of the graph runs its full length, each hop to a neighbour.
pub proof fn lemma_walk_full_length<T: View, F: Fn(&T, &T) -> i64>(
    m: Map<T::V, Seq<T::V>>,
    f: F,
    start: T::V,
    max_hops: nat,
    w: Seq<T::V>,
)
    requires
        is_walk(m, f, start, max_hops, w),
        m.contains_key(start),
        forall|v: T::V| m.contains_key(v) ==> (#[trigger] m[v]).len() > 0,
        forall|a: &T, b: &T, x: i64| f.ensures((a, b), x) ==> x > 0,
    ensures
        w.len() == max_hops,
        forall|k: int| 0 <= k < w.len() - 1 ==> #[trigger] m[w[k]].contains(w[k + 1]),
{
    if 0 < w.len() < max_hops {
        let last = w.last();
        assert(m.contains_key(w[w.len() - 1]));
        let v = m[last][0];
        assert(m[last].contains(v));
        assert(blocked(f, last, v));
    }
}

/// `p` is a path through `m` along edges whose weight under `f` was positive.
pub open spec fn is_passable_path<T: View, F: Fn(&T, &T) -> i64>(
    m: Map<T::V, Seq<T::V>>,
    f: F,
    p: Seq<T::V>,
) -> bool {
    &&& p.len() > 0
    &&& forall|k: int| 0 <= k < p.len() ==> m.contains_key(#[trigger] p[k])
    &&& forall|k: int|
        0 <= k < p.len() - 1 ==> #[trigger] m[p[k]].contains(p[k + 1]) && passable(f, p[k], p[k + 1])
}

/// `to` can be reached from `from` along edges of positive weight.
pub open spec fn reaches<T: View, F: Fn(&T, &T) -> i64>(
    m: Map<T::V, Seq<T::V>>,
    f: F,
    from: T::V,
    to: T::V,
) -> bool {
    exists|p: Seq<T::V>| #[trigger] is_passable_path(m, f, p) && p[0] == from && p.last() == to
}

/// Every node of a walk is reached from its start.
pub proof fn lemma_walk_reaches<T: View, F: Fn(&T, &T) -> i64>(
    m: Map<T::V, Seq<T::V>>,
    f: F,
    start: T::V,
    max_hops: nat,
    w: Seq<T::V>,
    k: int,
)
    requires
        is_walk(m, f, start, max_hops, w),
        0 <= k < w.len(),
    ensures
        reaches(m, f, start, w[k]),
{
    let p = w.take(k + 1);
    assert forall|j: int| 0 <= j < p.len() - 1 implies #[trigger] m[p[j]].contains(p[j + 1]) && passable(
        f,
        p[j],
        p[j + 1],
    ) by {
        assert(p[j] == w[j] && p[j + 1] == w[j + 1]);
        assert(m[w[j]].contains(w[j + 1]));
    }
    assert forall|j: int| 0 <= j < p.len() implies m.contains_key(#[trigger] p[j]) by {
        assert(p[j] == w[j]);
    }
    assert(is_passable_path(m, f, p));
}

/// How often `v` occurs in `s`.
pub open spec fn occurrences<V>(s: Seq<V>, v: V) -> nat
    decreases s.len(),
{
    if s.len() == 0 {
        0
    } else {
        occurrences(s.drop_last(), v) + if s.last() == v {
            1nat
        } else {
            0nat
        }
    }
}

/// The walks of `ws`, one after the other.
pub open spec fn joined<V>(ws: Seq<Seq<V>>) -> Seq<V>
    decreases ws.len(),
{
    if ws.len() == 0 {
        Seq::empty()
    } else {
        joined(ws.drop_last()) + ws.last()
    }
}

/// `walks` are the walks that a tally from `start` with step budget
/// `budget` makes: each is a walk (see `is_walk`) of at most `depth` nodes,
/// each is started while fewer than `budget` nodes have been visited, and
/// together they visit at least `budget` nodes, unless no walk from
/// `start` can visit any.
pub open spec fn walks_fill<T: View, F: Fn(&T, &T) -> i64>(
    m: Map<T::V, Seq<T::V>>,
    f: F,
    start: T::V,
    depth: nat,
    budget: nat,
    walks: Seq<Seq<T::V>>,
) -> bool {
    &&& forall|j: int| 0 <= j < walks.len() ==> is_walk(m, f, start, depth, #[trigger] walks[j]) && walks[j].len() > 0
    &&& forall|j: int| 0 <= j < walks.len() ==> #[trigger] joined(walks.take(j)).len() < budget
    &&& (m.contains_key(start) && depth > 0) ==> budget <= joined(walks).len()
    &&& !(m.contains_key(start) && depth > 0) ==> walks.len() == 0
}

/// `ws` are weights that calls of `f` gave for `elems`, one for each, in order.
pub open spec fn weighed<T, F: Fn(&T) -> i64>(f: F, elems: Seq<T>, ws: Seq<i64>) -> bool {
    &&& ws.len() == elems.len()
    &&& forall|k: int| 0 <= k < ws.len() ==> f.ensures((&elems[k],), #[trigger] ws[k])
}

/// Data structure containing an undirected graph.
pub struct Graph<T: View> {
    nodes: Vec<T>,
    adj: Vec<Vec<usize>>,
    max_degree: usize,
    model: Ghost<Map<T::V, Seq<T::V>>>,
}

impl<T: NodeKey> View for Graph<T> {
    type V = Map<T::V, Seq<T::V>>;

    closed spec fn view(&self) -> Map<T::V, Seq<T::V>> {
        self.model@
    }
}

impl<T: NodeKey> Graph<T> {
    /// The number of nodes.
    pub closed spec fn node_count(&self) -> nat {
        self.nodes.len() as nat
    }

    /// The node stored at position `i`.
    pub closed spec fn node_view(&self, i: int) -> T::V {
        self.nodes[i]@
    }

    /// The largest degree, as the graph keeps it.
    pub closed spec fn recorded_max_degree(&self) -> nat {
        self.max_degree as nat
    }

    closed spec fn neighbors_at(&self, i: int) -> Seq<T::V> {
        self.adj[i]@.map_values(|j: usize| self.nodes[j as int]@)
    }

    /// Nodes are distinct, each has a row of in-range, distinct positions,
    /// and the model lists, for each node, the nodes of its row.
    closed spec fn wf_rows(&self) -> bool {
        let n = self.nodes.len();
        &&& self.adj.len() == n
        &&& forall|i: int, j: int|
            0 <= i < n && 0 <= j < n && i != j ==> self.nodes[i]@ != self.nodes[j]@
        &&& forall|i: int| 0 <= i < n ==> self.model@.contains_key(#[trigger] self.nodes[i]@)
        &&& forall|v: T::V|
            #[trigger] self.model@.contains_key(v) ==> exists|i: int|
                0 <= i < n && self.nodes[i]@ == v
        &&& forall|i: int| 0 <= i < n ==> self.model@[self.nodes[i]@] == #[trigger] self.neighbors_at(i)
        &&& forall|i: int, k: int|
            0 <= i < n && 0 <= k < self.adj[i].len() ==> #[trigger] self.adj[i][k] < n
        &&& forall|i: int| 0 <= i < n ==> (#[trigger] self.adj[i])@.no_duplicates()
    }

    /// Each row entry is matched by an entry back in the neighbour's row.
    closed spec fn rows_symmetric(&self) -> bool {
        forall|i: int, k: int|
            0 <= i < self.nodes.len() && 0 <= k < self.adj[i].len() ==> self.adj[#[trigger] self.adj[i][k] as int]@.contains(
                i as usize,
            )
    }

    /// The kept largest degree is the length of the longest row.
    closed spec fn max_degree_kept(&self) -> bool {
        &&& forall|i: int| 0 <= i < self.nodes.len() ==> #[trigger] self.adj[i].len() <= self.max_degree
        &&& self.max_degree == 0 || exists|i: int|
            0 <= i < self.nodes.len() && self.adj[i].len() == self.max_degree
    }

    /// The representation agrees with the model, and the model is a graph.
    pub closed spec fn wf(&self) -> bool {
        &&& self.wf_rows()
        &&& self.rows_symmetric()
        &&& self.max_degree_kept()
    }

    /// Positions and model agree: each position holds a node of the graph,
    /// each node of the graph sits at exactly one position.
    pub proof fn lemma_positions(&self)
        requires
            self.wf(),
        ensures
            forall|i: int| 0 <= i < self.node_count() ==> self@.contains_key(#[trigger] self.node_view(i)),
            forall|v: T::V|
                #[trigger] self@.contains_key(v) ==> exists|i: int|
                    0 <= i < self.node_count() && self.node_view(i) == v,
            forall|i: int, j: int|
                0 <= i < self.node_count() && 0 <= j < self.node_count() && i != j ==> self.node_view(i)
                    != self.node_view(j),
    {
        assert forall|v: T::V| #[trigger] self@.contains_key(v) implies exists|i: int|
            0 <= i < self.node_count() && self.node_view(i) == v by {
            let i = choose|i: int| 0 <= i < self.nodes.len() && self.nodes[i]@ == v;
            assert(self.node_view(i) == v);
        }
    }

    /// The model of a well-formed graph is symmetric, without repeated
    /// neighbours, and its recorded largest degree is the largest degree.
    pub proof fn lemma_model(&self)
        requires
            self.wf(),
        ensures
            is_symmetric(self@),
            lists_are_sets(self@),
            is_max_degree(self@, self.recorded_max_degree()),
    {
        let n = self.nodes.len();
        assert forall|u: T::V, v: T::V|
            self@.contains_key(u) && #[trigger] self@[u].contains(v) implies self@.contains_key(v)
            && self@[v].contains(u) by {
            let i = choose|i: int| 0 <= i < n && self.nodes[i]@ == u;
            assert(self.neighbors_at(i) == self@[u]);
            let k = choose|k: int| 0 <= k < self@[u].len() && self@[u][k] == v;
            let j = self.adj[i][k];
            assert(self.nodes[j as int]@ == v);
            assert(self.adj[j as int]@.contains(i as usize));
            let k2 = choose|k2: int| 0 <= k2 < self.adj[j as int].len() && self.adj[j as int][k2] == i;
            assert(self.neighbors_at(j as int)[k2] == u);
        }
        assert forall|u: T::V| self@.contains_key(u) implies (#[trigger] self@[u]).no_duplicates() by {
            let i = choose|i: int| 0 <= i < n && self.nodes[i]@ == u;
            assert(self.neighbors_at(i) == self@[u]);
            assert forall|a: int, b: int|
                0 <= a < self@[u].len() && 0 <= b < self@[u].len() && a != b implies self@[u][a]
                != self@[u][b] by {
                assert(self.adj[i][a] != self.adj[i][b]);
            }
        }
        assert forall|v: T::V| self@.contains_key(v) implies degree_of(self@, v) <= self.max_degree by {
            let i = choose|i: int| 0 <= i < n && self.nodes[i]@ == v;
            assert(self.neighbors_at(i) == self@[v]);
            assert(self.adj[i].len() <= self.max_degree);
        }
        if self.max_degree != 0 {
            let i = choose|i: int| 0 <= i < n && self.adj[i].len() == self.max_degree;
            assert(self@.contains_key(self.nodes[i]@));
            assert(self.neighbors_at(i) == self@[self.nodes[i]@]);
            assert(degree_of(self@, self.nodes[i]@) == self.max_degree);
        }
    }

    /// Creates an empty graph
    pub fn new() -> (g: Graph<T>)
        ensures
            g.wf(),
            g@ == Map::<T::V, Seq<T::V>>::empty(),
    {
        Graph { nodes: Vec::new(), adj: Vec::new(), max_degree: 0, model: Ghost(Map::empty()) }
    }

    /// The position of `node`, if it is in the graph.
    pub(crate) fn find(&self, node: &T) -> (r: Option<usize>)
        requires
            self.wf(),
        ensures
            r is None <==> !self@.contains_key(node@),
            r matches Some(i) ==> i < self.node_count() && self.node_view(i as int) == node@,
    {
        let mut i: usize = 0;
        while i < self.nodes.len()
            invariant
                self.wf(),
                i <= self.nodes.len(),
                forall|j: int| 0 <= j < i ==> self.nodes[j]@ != node@,
            decreases self.nodes.len() - i,
        {
            if self.nodes[i].same_node(node) {
                return Some(i);
            }
            i = i + 1;
        }
        None
    }

    /// Adds a node to the graph.
    pub fn add_node(&mut self, node: &T)
        requires
            old(self).wf(),
        ensures
            final(self).wf(),
            final(self)@ == with_node(old(self)@, node@),
    {
        let _ = self.insert_node(node);
    }

    /// Adds `node` when absent, and returns its position.
    fn insert_node(&mut self, node: &T) -> (r: usize)
        requires
            old(self).wf(),
        ensures
            final(self).wf(),
            final(self)@ == with_node(old(self)@, node@),
            r < final(self).node_count(),
            final(self).node_view(r as int) == node@,
            final(self).node_count() >= old(self).node_count(),
            forall|i: int|
                0 <= i < old(self).node_count() ==> final(self).node_view(i) == old(self).node_view(i),
    {
        match self.find(node) {
            Some(i) => i,
            None => {
                let ghost old_g = *self;
                let n = self.nodes.len();
                self.nodes.push(node.copy_node());
                self.adj.push(Vec::new());
                self.model = Ghost(self.model@.insert(node@, Seq::empty()));
                assert forall|i: int| 0 <= i < n implies #[trigger] self.neighbors_at(i)
                    == old_g.neighbors_at(i) by {
                    assert(self.neighbors_at(i) =~= old_g.neighbors_at(i));
                }
                assert(self.neighbors_at(n as int) =~= Seq::empty());
                assert forall|v: T::V| #[trigger] self.model@.contains_key(v) implies exists|i: int|
                    0 <= i < self.nodes.len() && self.nodes[i]@ == v by {
                    if v != node@ {
                        assert(old_g.model@.contains_key(v));
                        let i = choose|i: int| 0 <= i < n && old_g.nodes[i]@ == v;
                        assert(self.nodes[i]@ == v);
                    } else {
                        assert(self.nodes[n as int]@ == v);
                    }
                }
                assert(self.max_degree == 0 || exists|i: int|
                    0 <= i < self.nodes.len() && self.adj[i].len() == self.max_degree) by {
                    if self.max_degree != 0 {
                        let i = choose|i: int|
                            0 <= i < n && old_g.adj[i].len() == old_g.max_degree;
                        assert(self.adj[i].len() == self.max_degree);
                    }
                }
                n
            },
        }
    }

    /// Whether the row at `i` holds the position `j`.
    fn row_contains(&self, i: usize, j: usize) -> (r: bool)
        requires
            self.wf_rows(),
            i < self.nodes.len(),
            j < self.nodes.len(),
        ensures
            r == self.adj[i as int]@.contains(j),
            r == self.model@[self.nodes[i as int]@].contains(self.nodes[j as int]@),
    {
        let row = &self.adj[i];
        let ghost nb = self.neighbors_at(i as int);
        let mut k: usize = 0;
        while k < row.len()
            invariant
                self.wf_rows(),
                i < self.nodes.len(),
                j < self.nodes.len(),
                row == self.adj[i as int],
                nb == self.neighbors_at(i as int),
                k <= row.len(),
                forall|m: int| 0 <= m < k ==> row[m] != j,
            decreases row.len() - k,
        {
            if row[k] == j {
                assert(nb[k as int] == self.nodes[j as int]@);
                return true;
            }
            k = k + 1;
        }
        assert forall|m: int| 0 <= m < nb.len() implies nb[m] != self.nodes[j as int]@ by {
            assert(row[m] < self.nodes.len());
        }
        false
    }

    /// Makes position `j` a neighbour of position `i`, one way only.
    fn push_neighbor(&mut self, i: usize, j: usize)
        requires
            old(self).wf_rows(),
            i < old(self).nodes.len(),
            j < old(self).nodes.len(),
        ensures
            final(self).wf_rows(),
            final(self).nodes == old(self).nodes,
            final(self).max_degree == old(self).max_degree,
            final(self).model@ == with_neighbor(
                old(self).model@,
                old(self).nodes[i as int]@,
                old(self).nodes[j as int]@,
            ),
            final(self).adj@ == old(self).adj@.update(
                i as int,
                final(self).adj[i as int],
            ),
            final(self).adj[i as int]@ == (if old(self).adj[i as int]@.contains(j) {
                old(self).adj[i as int]@
            } else {
                old(self).adj[i as int]@.push(j)
            }),
    {
        let ghost old_g = *self;
        let ghost a = self.nodes[i as int]@;
        let ghost b = self.nodes[j as int]@;
        let present = self.row_contains(i, j);
        if !present {
            self.adj[i].push(j);
        }
        self.model = Ghost(with_neighbor(self.model@, a, b));
        let n = self.nodes.len();
        assert forall|x: int| 0 <= x < n implies self.model@[self.nodes[x]@]
            == #[trigger] self.neighbors_at(x) by {
            if x == i {
                assert(self.neighbors_at(x) =~= (if present {
                    old_g.neighbors_at(x)
                } else {
                    old_g.neighbors_at(x).push(b)
                }));
            } else {
                assert(self.neighbors_at(x) =~= old_g.neighbors_at(x));
            }
        }
        assert forall|x: int, k: int|
            0 <= x < n && 0 <= k < self.adj[x].len() implies #[trigger] self.adj[x][k] < n by {
            if x == i && !present && k == old_g.adj[x].len() {
            } else {
                assert(self.adj[x][k] == old_g.adj[x][k]);
            }
        }
        assert forall|x: int| 0 <= x < n implies (#[trigger] self.adj[x])@.no_duplicates() by {
            if x == i && !present {
                assert(old_g.adj[x]@.no_duplicates());
                assert forall|p: int, q: int|
                    0 <= p < self.adj[x].len() && 0 <= q < self.adj[x].len() && p != q implies self.adj[x][p]
                    != self.adj[x][q] by {
                    if p == old_g.adj[x].len() as int {
                        assert(!old_g.adj[x]@.contains(j));
                        assert(old_g.adj[x][q] == self.adj[x][q]);
                    } else if q == old_g.adj[x].len() as int {
                        assert(!old_g.adj[x]@.contains(j));
                        assert(old_g.adj[x][p] == self.adj[x][p]);
                    }
                }
            }
        }
        assert forall|v: T::V| #[trigger] self.model@.contains_key(v) implies exists|x: int|
            0 <= x < n && self.nodes[x]@ == v by {
            if v == a {
                assert(self.nodes[i as int]@ == v);
            } else {
                assert(old_g.model@.contains_key(v));
            }
        }
    }

    /// Inserts the undirected edge between positions `i` and `j`, keeping the
    /// largest degree up to date.
    #[verifier::rlimit(40)]
    fn connect(&mut self, i: usize, j: usize)
        requires
            old(self).wf(),
            i < old(self).nodes.len(),
            j < old(self).nodes.len(),
        ensures
            final(self).wf(),
            final(self).nodes == old(self).nodes,
            final(self).model@ == with_edge(
                old(self).model@,
                old(self).nodes[i as int]@,
                old(self).nodes[j as int]@,
            ),
    {
        let ghost old_g = *self;
        self.push_neighbor(i, j);
        let ghost mid = *self;
        proof {
            if !old_g.adj[i as int]@.contains(j) {
                assert(mid.adj[i as int]@[old_g.adj[i as int].len() as int] == j);
            }
            assert(mid.adj[i as int]@.contains(j));
        }
        self.push_neighbor(j, i);
        let n = self.nodes.len();
        proof {
            if !mid.adj[j as int]@.contains(i) {
                assert(self.adj[j as int]@[mid.adj[j as int].len() as int] == i);
            }
            assert(self.adj[j as int]@.contains(i));
            if i != j {
                assert(self.adj[i as int] == mid.adj[i as int]);
            } else {
                let p = choose|p: int| 0 <= p < mid.adj[i as int].len() && mid.adj[i as int][p] == j;
                assert(self.adj[i as int][p] == j);
            }
            assert(self.adj[i as int]@.contains(j));
        }
        assert forall|x: int, k: int|
            0 <= x < n && 0 <= k < self.adj[x].len() implies self.adj[#[trigger] self.adj[x][k] as int]@.contains(
            x as usize,
        ) by {
            assert(self.adj[i as int]@.contains(j));
            assert(self.adj[j as int]@.contains(i));
            if k < old_g.adj[x].len() {
                assert(self.adj[x][k] == old_g.adj[x][k]);
                let y = old_g.adj[x][k] as int;
                assert(old_g.adj[y]@.contains(x as usize));
                let p = choose|p: int| 0 <= p < old_g.adj[y].len() && old_g.adj[y][p] == x as usize;
                assert(self.adj[y][p] == x as usize);
            } else if k < mid.adj[x].len() {
                assert(x == i && self.adj[x][k] == j);
            } else {
                assert(x == j && self.adj[x][k] == i);
            }
        }
        let ghost after = *self;
        let da = self.adj[i].len();
        let db = self.adj[j].len();
        if da > self.max_degree {
            self.max_degree = da;
        }
        if db > self.max_degree {
            self.max_degree = db;
        }
        assert forall|x: int| 0 <= x < n implies #[trigger] self.adj[x].len() <= self.max_degree by {
            if x != i && x != j {
                assert(self.adj[x] == old_g.adj[x]);
            }
        }
        proof {
            if self.max_degree == self.adj[i as int].len() {
                assert(0 <= i < n && self.adj[i as int].len() == self.max_degree);
            } else if self.max_degree == self.adj[j as int].len() {
                assert(0 <= j < n && self.adj[j as int].len() == self.max_degree);
            } else if self.max_degree != 0 {
                let x = choose|x: int| 0 <= x < n && old_g.adj[x].len() == old_g.max_degree;
                if x != i && x != j {
                    assert(self.adj[x] == old_g.adj[x]);
                }
                assert(self.adj[x].len() == self.max_degree);
            }
            assert(self.max_degree_kept());
            assert(self.rows_symmetric());
            assert(after.wf_rows());
            assert forall|x: int| 0 <= x < n implies #[trigger] self.neighbors_at(x)
                == after.neighbors_at(x) by {}
            assert(self.wf_rows());
        }
    }

    /// Adds an edge to the graph. The nodes are created, if needed.
    pub fn add_edge(&mut self, node_a: &T, node_b: &T)
        requires
            old(self).wf(),
        ensures
            final(self).wf(),
            final(self)@ == with_edge(old(self)@, node_a@, node_b@),
    {
        let ghost m = self@;
        let i = self.insert_node(node_a);
        let j = self.insert_node(node_b);
        let ghost m2 = self@;
        self.connect(i, j);
        proof {
            lemma_edge_after_nodes(m, node_a@, node_b@);
        }
    }

    /// Lists the successors of a node: none for a node that is not in the graph.
    pub fn successors(&self, node: &T) -> (r: Vec<T>)
        requires
            self.wf(),
        ensures
            r@.map_values(|t: T| t@) == successors_of(self@, node@),
    {
        let mut out: Vec<T> = Vec::new();
        match self.find(node) {
            None => {
                assert(out@.map_values(|t: T| t@) =~= successors_of(self@, node@));
            },
            Some(i) => {
                let row = &self.adj[i];
                let mut k: usize = 0;
                while k < row.len()
                    invariant
                        self.wf(),
                        i < self.nodes.len(),
                        row == self.adj[i as int],
                        k <= row.len(),
                        out.len() == k,
                        forall|m: int| 0 <= m < k ==> (#[trigger] out[m])@ == self.neighbors_at(i as int)[m],
                    decreases row.len() - k,
                {
                    assert(row[k as int] < self.nodes.len());
                    out.push(self.nodes[row[k]].copy_node());
                    k = k + 1;
                }
                assert(out@.map_values(|t: T| t@) =~= self.neighbors_at(i as int));
            },
        }
        out
    }

    /// Returns the degree of a node: 0 for a node that is not in the graph.
    pub fn degree(&self, node: &T) -> (r: usize)
        requires
            self.wf(),
        ensures
            r == degree_of(self@, node@),
    {
        match self.find(node) {
            None => 0,
            Some(i) => {
                assert(self.neighbors_at(i as int).len() == self.adj[i as int].len());
                self.adj[i].len()
            },
        }
    }

    /// Returns the degree of the node with the largest degree in the graph.
    pub fn max_degree(&self) -> (r: usize)
        requires
            self.wf(),
        ensures
            is_max_degree(self@, r as nat),
    {
        proof {
            self.lemma_model();
        }
        self.max_degree
    }

    /// The hop from position `i` to position `j` follows an edge of positive weight.
    closed spec fn hop<F: Fn(&T, &T) -> i64>(&self, f: F, i: int, j: int) -> bool {
        self.adj[i]@.contains(j as usize) && passable(f, self.nodes[i]@, self.nodes[j]@)
    }

    /// Every way on from position `i` weighed zero or below.
    closed spec fn stuck_at<F: Fn(&T, &T) -> i64>(&self, f: F, i: int) -> bool {
        forall|k: int|
            0 <= k < self.adj[i].len() ==> blocked(f, self.nodes[i]@, self.nodes[#[trigger] self.adj[i][k] as int]@)
    }

    /// The weights of the ways on from position `i`, in row order.
    fn way_weights<F: Fn(&T, &T) -> i64>(&self, i: usize, weight_fun: &F) -> (ws: Vec<i64>)
        requires
            self.wf(),
            i < self.nodes.len(),
            forall|a: &T, b: &T| weight_fun.requires((a, b)),
        ensures
            ws.len() == self.adj[i as int].len(),
            forall|k: int|
                0 <= k < ws.len() ==> weight_fun.ensures(
                    (&self.nodes[i as int], &self.nodes[self.adj[i as int][k] as int]),
                    #[trigger] ws[k],
                ),
    {
        let row = &self.adj[i];
        let mut ws: Vec<i64> = Vec::new();
        let mut k: usize = 0;
        while k < row.len()
            invariant
                self.wf(),
                i < self.nodes.len(),
                row == self.adj[i as int],
                forall|a: &T, b: &T| weight_fun.requires((a, b)),
                k <= row.len(),
                ws.len() == k,
                forall|m: int|
                    0 <= m < k ==> weight_fun.ensures(
                        (&self.nodes[i as int], &self.nodes[row[m] as int]),
                        #[trigger] ws[m],
                    ),
            decreases row.len() - k,
        {
            assert(row[k as int] < self.nodes.len());
            let w = weight_fun(&self.nodes[i], &self.nodes[row[k]]);
            ws.push(w);
            k = k + 1;
        }
        ws
    }

    /// A random walk by positions; see `random_walk`.
    pub(crate) fn walk_positions<F: Fn(&T, &T) -> i64>(
        &self,
        start: usize,
        max_hops: u8,
        weight_fun: &F,
    ) -> (r: Vec<usize>)
        requires
            self.wf(),
            start < self.node_count(),
            forall|a: &T, b: &T| weight_fun.requires((a, b)),
        ensures
            forall|k: int| 0 <= k < r.len() ==> #[trigger] r[k] < self.node_count(),
            r.len() > 0 ==> r[0] == start,
            is_walk(
                self@,
                *weight_fun,
                self.node_view(start as int),
                max_hops as nat,
                r@.map_values(|i: usize| self.node_view(i as int)),
            ),
    {
        let mut visited: Vec<usize> = Vec::new();
        let mut current: usize = start;
        let mut hops: u8 = max_hops;
        let mut stuck = false;
        let ghost f = *weight_fun;
        while hops > 0 && !stuck
            invariant
                self.wf(),
                start < self.nodes.len(),
                current < self.nodes.len(),
                f == *weight_fun,
                forall|a: &T, b: &T| weight_fun.requires((a, b)),
                visited.len() + hops == max_hops,
                forall|k: int| 0 <= k < visited.len() ==> #[trigger] visited[k] < self.nodes.len(),
                visited.len() == 0 ==> current == start && !stuck,
                visited.len() > 0 ==> visited[0] == start,
                visited.len() > 0 && !stuck ==> self.hop(f, visited@.last() as int, current as int),
                forall|k: int|
                    0 <= k < visited.len() - 1 ==> self.hop(f, #[trigger] visited[k] as int, visited[k + 1] as int),
                stuck ==> visited.len() > 0 && visited@.last() == current && self.stuck_at(f, current as int),
            decreases hops,
        {
            visited.push(current);
            hops = hops - 1;
            let ws = self.way_weights(current, weight_fun);
            match draw_weighted(&ws) {
                None => {
                    proof {
                        lemma_zero_total(ws@);
                        assert forall|k: int| 0 <= k < self.adj[current as int].len() implies blocked(
                            f,
                            self.nodes[current as int]@,
                            self.nodes[#[trigger] self.adj[current as int][k] as int]@,
                        ) by {
                            assert(ws[k] <= 0);
                            assert(weight_fun.ensures(
                                (&self.nodes[current as int], &self.nodes[self.adj[current as int][k] as int]),
                                ws[k],
                            ));
                        }
                    }
                    stuck = true;
                },
                Some(k) => {
                    let ghost prev = current;
                    assert(self.adj[current as int][k as int] < self.nodes.len());
                    current = self.adj[current][k];
                    proof {
                        assert(weight_fun.ensures(
                            (&self.nodes[prev as int], &self.nodes[current as int]),
                            ws[k as int],
                        ));
                        assert(self.adj[prev as int]@[k as int] == current);
                        assert(self.hop(f, prev as int, current as int));
                    }
                },
            }
        }
        proof {
            let w = visited@.map_values(|i: usize| self.node_view(i as int));
            let m = self@;
            assert forall|k: int| 0 <= k < w.len() implies m.contains_key(#[trigger] w[k]) by {
                assert(self.nodes[visited[k] as int]@ == w[k]);
            }
            assert forall|k: int| 0 <= k < w.len() - 1 implies #[trigger] m[w[k]].contains(w[k + 1])
                && passable(f, w[k], w[k + 1]) by {
                let i = visited[k] as int;
                let j = visited[k + 1] as int;
                assert(self.hop(f, i, j));
                assert(m[w[k]] == self.neighbors_at(i));
                let p = choose|p: int| 0 <= p < self.adj[i].len() && self.adj[i][p] == j as usize;
                assert(self.neighbors_at(i)[p] == w[k + 1]);
            }
            if 0 < w.len() < max_hops {
                let i = visited@.last() as int;
                assert(w.last() == self.nodes[i]@);
                assert(m[w.last()] == self.neighbors_at(i));
                assert forall|v: T::V| #[trigger] m[w.last()].contains(v) implies blocked(f, w.last(), v) by {
                    let p = choose|p: int| 0 <= p < self.neighbors_at(i).len() && self.neighbors_at(i)[p] == v;
                    assert(self.adj[i][p] < self.nodes.len());
                }
            }
            assert(m.contains_key(self.nodes[start as int]@));
        }
        visited
    }

    /// Performs a random walk on a graph, from `starting_node`, of at most
    /// `max_hops` nodes. At each node the next one is drawn among its
    /// successors with probability proportional to the clamped weight that
    /// `weight_fun(from, to)` gives; the walk ends early where all of those
    /// weights are zero. It returns the visited nodes in the order visited,
    /// and nothing for a node that is not in the graph.
    pub fn random_walk<F: Fn(&T, &T) -> i64>(&self, starting_node: &T, max_hops: u8, weight_fun: &F) -> (r: Vec<T>)
        requires
            self.wf(),
            forall|a: &T, b: &T| weight_fun.requires((a, b)),
        ensures
            is_walk(self@, *weight_fun, starting_node@, max_hops as nat, r@.map_values(|t: T| t@)),
    {
        let mut out: Vec<T> = Vec::new();
        match self.find(starting_node) {
            None => {
                assert(out@.map_values(|t: T| t@) =~= Seq::<T::V>::empty());
            },
            Some(s) => {
                let walk = self.walk_positions(s, max_hops, weight_fun);
                let ghost w = walk@.map_values(|i: usize| self.node_view(i as int));
                let mut k: usize = 0;
                while k < walk.len()
                    invariant
                        self.wf(),
                        forall|j: int| 0 <= j < walk.len() ==> #[trigger] walk[j] < self.node_count(),
                        w == walk@.map_values(|i: usize| self.node_view(i as int)),
                        k <= walk.len(),
                        out.len() == k,
                        forall|j: int| 0 <= j < k ==> (#[trigger] out[j])@ == w[j],
                    decreases walk.len() - k,
                {
                    assert(walk[k as int] < self.node_count());
                    out.push(self.nodes[walk[k]].copy_node());
                    k = k + 1;
                }
                assert(out@.map_values(|t: T| t@) =~= w);
            },
        }
        out
    }

    /// Picks one of `elems` with probability proportional to its clamped
    /// weight `weight_fun(elem)`, or none when those weights sum to zero.
    pub fn weighted_sample<F: Fn(&T) -> i64>(elems: &Vec<T>, weight_fun: &F) -> (r: Option<T>)
        requires
            forall|a: &T| weight_fun.requires((a,)),
        ensures
            exists|ws: Seq<i64>| #[trigger] weighed(*weight_fun, elems@, ws) && {
                &&& r is None <==> weight_total(ws) == 0
                &&& r matches Some(x) ==> exists|k: int|
                    0 <= k < ws.len() && ws[k] > 0 && x@ == (#[trigger] elems@[k])@
            },
    {
        let mut ws: Vec<i64> = Vec::new();
        let mut k: usize = 0;
        while k < elems.len()
            invariant
                forall|a: &T| weight_fun.requires((a,)),
                k <= elems.len(),
                ws.len() == k,
                forall|m: int| 0 <= m < k ==> weight_fun.ensures((&elems@[m],), #[trigger] ws@[m]),
            decreases elems.len() - k,
        {
            let w = weight_fun(&elems[k]);
            ws.push(w);
            k = k + 1;
        }
        assert(weighed(*weight_fun, elems@, ws@));
        match draw_weighted(&ws) {
            None => None,
            Some(i) => {
                assert(ws@[i as int] > 0 && elems@[i as int]@ == elems@[i as int]@);
                Some(elems[i].copy_node())
            },
        }
    }

    /// Visit counts, by position, of walks from position `start` of at most
    /// `depth` nodes each: walks are started while fewer than `budget`
    /// visits are counted, and every node of each walk is counted. Nothing
    /// is counted when `depth` or `budget` is 0.
    pub(crate) fn tally_positions<F: Fn(&T, &T) -> i64>(
        &self,
        start: usize,
        depth: u8,
        budget: usize,
        weight_fun: &F,
    ) -> (counts: Vec<usize>)
        requires
            self.wf(),
            start < self.node_count(),
            forall|a: &T, b: &T| weight_fun.requires((a, b)),
            budget + depth <= usize::MAX,
        ensures
            counts.len() == self.node_count(),
            depth > 0 && budget > 0 ==> budget <= count_sum(counts@) < budget + depth,
            !(depth > 0 && budget > 0) ==> count_sum(counts@) == 0,
            depth > 0 && budget > 0 ==> counts[start as int] > 0,
            forall|p: int|
                0 <= p < counts.len() && #[trigger] counts[p] > 0 ==> reaches(
                    self@,
                    *weight_fun,
                    self.node_view(start as int),
                    self.node_view(p),
                ),
            depth >= 2 && budget > 0 ==> (exists|p: int|
                0 <= p < counts.len() && #[trigger] counts[p] > 0 && self@[self.node_view(
                    start as int,
                )].contains(self.node_view(p))) || (forall|v: T::V|
                #[trigger] self@[self.node_view(start as int)].contains(v) ==> blocked(
                    *weight_fun,
                    self.node_view(start as int),
                    v,
                )),
            exists|walks: Seq<Seq<T::V>>|
                #[trigger] walks_fill(self@, *weight_fun, self.node_view(start as int), depth as nat, budget as nat, walks)
                    && (forall|p: int| 0 <= p < counts.len() ==> #[trigger] counts[p] == occurrences(joined(walks), self.node_view(p)))
                    && (forall|v: T::V| #[trigger] occurrences(joined(walks), v) > 0 ==> exists|p: int|
                        0 <= p < counts.len() && self.node_view(p) == v),
    {
        let n = self.nodes.len();
        let ghost f = *weight_fun;
        let ghost sv = self.node_view(start as int);
        let mut counts: Vec<usize> = Vec::new();
        let mut i: usize = 0;
        while i < n
            invariant
                i <= n,
                counts.len() == i,
                forall|j: int| 0 <= j < i ==> counts[j] == 0,
            decreases n - i,
        {
            counts.push(0);
            i = i + 1;
        }
        proof {
            lemma_count_sum_zeros(counts@);
        }
        let mut steps: usize = 0;
        let mut done = false;
        let ghost mut left = false;
        let ghost mut lp: int = 0;
        let ghost mut walks: Seq<Seq<T::V>> = Seq::empty();
        proof {
            assert forall|p: int| 0 <= p < n implies #[trigger] counts[p] == occurrences(joined(walks), self.node_view(p)) by {}
        }
        while steps < budget && !done
            invariant
                self.wf(),
                start < n,
                n == self.nodes.len(),
                f == *weight_fun,
                sv == self.node_view(start as int),
                forall|a: &T, b: &T| weight_fun.requires((a, b)),
                budget + depth <= usize::MAX,
                counts.len() == n,
                count_sum(counts@) == steps,
                steps == 0 || steps < budget + depth,
                budget == 0 ==> steps == 0,
                done ==> depth == 0 && steps == 0,
                depth == 0 ==> steps == 0,
                steps > 0 ==> counts[start as int] > 0,
                forall|p: int| 0 <= p < n && #[trigger] counts[p] > 0 ==> reaches(self@, f, sv, self.node_view(p)),
                left ==> 0 <= lp < n && counts[lp] > 0 && self@[sv].contains(self.node_view(lp)),
                !left && steps > 0 && depth >= 2 ==> forall|v: T::V|
                    #[trigger] self@[sv].contains(v) ==> blocked(f, sv, v),
                steps == joined(walks).len(),
                forall|j: int| 0 <= j < walks.len() ==> is_walk(self@, f, sv, depth as nat, #[trigger] walks[j]) && walks[j].len() > 0,
                forall|j: int| 0 <= j < walks.len() ==> #[trigger] joined(walks.take(j)).len() < budget,
                !(depth > 0) ==> walks.len() == 0,
                budget == 0 ==> walks.len() == 0,
                forall|p: int| 0 <= p < n ==> #[trigger] counts[p] == occurrences(joined(walks), self.node_view(p)),
                forall|v: T::V| #[trigger] occurrences(joined(walks), v) > 0 ==> exists|p: int|
                    0 <= p < n && self.node_view(p) == v,
                forall|p: int, q: int|
                    0 <= p < n && 0 <= q < n && p != q ==> self.node_view(p) != self.node_view(q),
            decreases (if steps < budget {
                budget - steps
            } else {
                0int
            }) + (if done {
                0int
            } else {
                1int
            }),
        {
            let walk = self.walk_positions(start, depth, weight_fun);
            let ghost w = walk@.map_values(|i: usize| self.node_view(i as int));
            proof {
                self.lemma_positions();
                assert(self@.contains_key(sv));
            }
            if walk.len() == 0 {
                done = true;
            } else {
                proof {
                    assert(w.len() == walk.len());
                    if steps == 0 && depth >= 2 && walk.len() < 2 {
                        assert(w.last() == w[0]);
                    }
                }
                let ghost steps0 = steps;
                let ghost first = steps == 0;
                let ghost done_before = joined(walks);
                let mut k: usize = 0;
                while k < walk.len()
                    invariant
                        self.wf(),
                        n == self.nodes.len(),
                        start < n,
                        sv == self.node_view(start as int),
                        f == *weight_fun,
                        w == walk@.map_values(|i: usize| self.node_view(i as int)),
                        is_walk(self@, f, sv, depth as nat, w),
                        steps == steps0 + k,
                        steps0 < budget,
                        budget + depth <= usize::MAX,
                        walk.len() <= depth,
                        counts.len() == n,
                        count_sum(counts@) == steps,
                        k <= walk.len(),
                        walk.len() > 0,
                        walk[0] == start,
                        forall|j: int| 0 <= j < walk.len() ==> #[trigger] walk[j] < n,
                        k > 0 || steps0 > 0 ==> counts[start as int] > 0,
                        forall|p: int| 0 <= p < n && #[trigger] counts[p] > 0 ==> reaches(self@, f, sv, self.node_view(p)),
                        left ==> 0 <= lp < n && counts[lp] > 0 && self@[sv].contains(self.node_view(lp)),
                        first && walk.len() >= 2 && k >= 2 ==> left,
                        done_before.len() == steps0,
                        forall|p: int| 0 <= p < n ==> #[trigger] counts[p] == occurrences(done_before + w.take(k as int), self.node_view(p)),
                        forall|v: T::V| #[trigger] occurrences(done_before + w.take(k as int), v) > 0 ==> exists|p: int|
                            0 <= p < n && self.node_view(p) == v,
                        forall|p: int, q: int|
                            0 <= p < n && 0 <= q < n && p != q ==> self.node_view(p) != self.node_view(q),
                        !left && depth >= 2 && (steps0 > 0 || walk.len() < 2) ==> forall|v: T::V|
                            #[trigger] self@[sv].contains(v) ==> blocked(f, sv, v),
                        first ==> steps0 == 0,
                    decreases walk.len() - k,
                {
                    let v = walk[k];
                    proof {
                        lemma_count_le_sum(counts@, v as int);
                        lemma_walk_reaches(self@, f, sv, depth as nat, w, k as int);
                        assert(w[k as int] == self.node_view(v as int));
                    }
                    let c = counts[v];
                    let ghost before = counts@;
                    counts.set(v, c + 1);
                    proof {
                        lemma_count_sum_bump(before, v as int);
                        assert(counts@ == before.update(v as int, (before[v as int] + 1) as usize));
                        if first && k == 1 && !left {
                            left = true;
                            lp = v as int;
                            assert(w.len() == walk.len());
                            assert(self@[w[0]].contains(w[1]));
                        }
                        let prev = done_before + w.take(k as int);
                        let next = done_before + w.take(k as int + 1);
                        assert(next =~= prev.push(w[k as int]));
                        assert(next.drop_last() =~= prev);
                        assert forall|p: int| 0 <= p < n implies #[trigger] counts[p] == occurrences(
                            next,
                            self.node_view(p),
                        ) by {
                            if p != v as int {
                                assert(self.node_view(p) != self.node_view(v as int));
                            }
                        }
                        assert forall|x: T::V| #[trigger] occurrences(next, x) > 0 implies exists|p: int|
                            0 <= p < n && self.node_view(p) == x by {
                            if x == w[k as int] {
                                assert(self.node_view(v as int) == x);
                            } else {
                                assert(occurrences(prev, x) > 0);
                            }
                        }
                    }
                    steps = steps + 1;
                    k = k + 1;
                }
                proof {
                    let old_walks = walks;
                    walks = walks.push(w);
                    assert(walks.drop_last() =~= old_walks);
                    assert(w.take(w.len() as int) =~= w);
                    assert(w.len() == walk.len());
                    assert(joined(walks) == done_before + w);
                    assert forall|j: int| 0 <= j < walks.len() implies is_walk(
                        self@,
                        f,
                        sv,
                        depth as nat,
                        #[trigger] walks[j],
                    ) && walks[j].len() > 0 by {
                        if j < old_walks.len() {
                            assert(walks[j] == old_walks[j]);
                        }
                    }
                    assert forall|j: int| 0 <= j < walks.len() implies #[trigger] joined(walks.take(j)).len() < budget by {
                        if j < old_walks.len() {
                            assert(walks.take(j) =~= old_walks.take(j));
                        } else {
                            assert(walks.take(j) =~= old_walks);
                        }
                    }
                }
            }
        }
        proof {
            assert(walks_fill(self@, f, sv, depth as nat, budget as nat, walks));
        }
        counts
    }

    /// A copy of the node at position `i`.
    pub(crate) fn node_at(&self, i: usize) -> (r: T)
        requires
            self.wf(),
            i < self.node_count(),
        ensures
            r@ == self.node_view(i as int),
    {
        self.nodes[i].copy_node()
    }

    /// The number of nodes.
    pub(crate) fn len(&self) -> (r: usize)
        ensures
            r == self.node_count(),
    {
        self.nodes.len()
    }
}

} // verus!
