//! A recommender that holds objects, tags and the links between them, and
//! ranks nodes by how often weighted random walks from a query reach them.

pub mod graph;
pub mod sampling;
pub mod scoring;

use vstd::prelude::*;
use self::graph::{
    Graph, NodeKey, with_node, with_edge, is_max_degree, degree_of, max_degree_of, reaches, blocked,
    passable, is_passable_path, lemma_max_degree_unique, walks_fill, occurrences, joined,
};
use self::scoring::{
    count_sum, lemma_count_sum_step, lemma_count_sum_zeros, lemma_count_le_sum, scaling_factor,
    split_budget, add_visit_roots, rank_by_score, lemma_no_visits_no_score, visit_root,
    budget_split, is_ranked, scaling_spec, ranks_before, lemma_visit_root_bound,
};

verus! {

/// Nodes to be used for recommendations.
///
/// A node can be either a `Tag` (e.g. a product category) or
/// an `Object` (e.g. a product).
#[derive(PartialEq, Eq, Clone, Hash, Debug)]
pub enum RecommenderNode<T> {
    Tag(String),
    Object(T),
}

/// What a `RecommenderNode` denotes: a tag by its text, an object by its view.
pub enum NodeModel<V> {
    Tag(Seq<char>),
    Object(V),
}

impl<T: View> View for RecommenderNode<T> {
    type V = NodeModel<T::V>;

    open spec fn view(&self) -> NodeModel<T::V> {
        match self {
            RecommenderNode::Tag(s) => NodeModel::Tag(s@),
            RecommenderNode::Object(o) => NodeModel::Object(o@),
        }
    }
}

impl<T: NodeKey> NodeKey for RecommenderNode<T> {
    fn same_node(&self, other: &Self) -> (r: bool) {
        match (self, other) {
            (RecommenderNode::Tag(a), RecommenderNode::Tag(b)) => a.same_node(b),
            (RecommenderNode::Object(a), RecommenderNode::Object(b)) => a.same_node(b),
            _ => false,
        }
    }

    fn copy_node(&self) -> (r: Self) {
        match self {
            RecommenderNode::Tag(s) => RecommenderNode::Tag(s.clone()),
            RecommenderNode::Object(o) => RecommenderNode::Object(o.copy_node()),
        }
    }
}

/// The number of visits that a tally records.
pub open spec fn visit_total<N>(s: Seq<(N, usize)>) -> nat
    decreases s.len(),
{
    if s.len() == 0 {
        0
    } else {
        visit_total(s.drop_last()) + s.last().1 as nat
    }
}

/// The scaling factor of each seed: see `scaling_spec`.
pub open spec fn seed_factors<V>(m: Map<V, Seq<V>>, seeds: Seq<V>) -> Seq<u64> {
    Seq::new(seeds.len(), |i: int| scaling_spec(degree_of(m, seeds[i]), max_degree_of(m)) as u64)
}

/// What a sequence of nodes denotes.
pub open spec fn node_models<T: View>(nodes: Seq<RecommenderNode<T>>) -> Seq<NodeModel<T::V>> {
    nodes.map_values(|q: RecommenderNode<T>| q@)
}

/// What a sequence of objects denotes, as nodes.
pub open spec fn object_models<T: View>(objects: Seq<T>) -> Seq<NodeModel<T::V>> {
    objects.map_values(|o: T| NodeModel::Object(o@))
}

/// Every edge joins an object and a tag.
pub open spec fn joins_kinds<V>(m: Map<NodeModel<V>, Seq<NodeModel<V>>>) -> bool {
    forall|u: NodeModel<V>, v: NodeModel<V>|
        m.contains_key(u) && #[trigger] m[u].contains(v) ==> (u is Tag) != (v is Tag)
}

proof fn lemma_neighbor_added<V>(m: Map<V, Seq<V>>, a: V, b: V, u: V, v: V)
    requires
        graph::with_neighbor(m, a, b).contains_key(u),
        graph::with_neighbor(m, a, b)[u].contains(v),
    ensures
        (u == a && v == b) || (m.contains_key(u) && m[u].contains(v)),
{
    let s = graph::successors_of(m, a);
    if u == a && v != b {
        let k = choose|k: int| 0 <= k < graph::with_neighbor(m, a, b)[u].len() && graph::with_neighbor(m, a, b)[u][k] == v;
        if !s.contains(b) {
            assert(k < s.len());
        }
        assert(s[k] == v);
    }
}

proof fn lemma_tagging_joins_kinds<V>(m: Map<NodeModel<V>, Seq<NodeModel<V>>>, o: V, t: Seq<char>)
    requires
        joins_kinds(m),
    ensures
        joins_kinds(with_edge(m, NodeModel::Object(o), NodeModel::Tag(t))),
{
    let a = NodeModel::<V>::Object(o);
    let b = NodeModel::<V>::Tag(t);
    let m1 = graph::with_neighbor(m, a, b);
    let m2 = with_edge(m, a, b);
    assert forall|u: NodeModel<V>, v: NodeModel<V>|
        m2.contains_key(u) && #[trigger] m2[u].contains(v) implies (u is Tag) != (v is Tag) by {
        lemma_neighbor_added(m1, b, a, u, v);
        if !(u == b && v == a) {
            lemma_neighbor_added(m, a, b, u, v);
        }
    }
}

proof fn lemma_node_joins_kinds<V>(m: Map<NodeModel<V>, Seq<NodeModel<V>>>, a: NodeModel<V>)
    requires
        joins_kinds(m),
    ensures
        joins_kinds(with_node(m, a)),
{
    let m2 = with_node(m, a);
    assert forall|u: NodeModel<V>, v: NodeModel<V>|
        m2.contains_key(u) && #[trigger] m2[u].contains(v) implies (u is Tag) != (v is Tag) by {
        if u != a || m.contains_key(a) {
            assert(m.contains_key(u) && m[u].contains(v));
        }
    }
}

/// The hop from `u` to `v` weighed positive: by `object_to_tag_weight`
/// from an object to a tag, by `tag_to_object_weight` from a tag to an
/// object. A hop between nodes of one kind never does.
pub open spec fn weighs_positive<T: View, F: Fn(&T, &String) -> i64, G: Fn(&String, &T) -> i64>(
    object_to_tag_weight: F,
    tag_to_object_weight: G,
    u: NodeModel<T::V>,
    v: NodeModel<T::V>,
) -> bool {
    match u {
        NodeModel::Object(o) => match v {
            NodeModel::Tag(t) => exists|a: T, s: String, w: i64|
                a@ == o && s@ == t && w > 0 && #[trigger] object_to_tag_weight.ensures((&a, &s), w),
            NodeModel::Object(_) => false,
        },
        NodeModel::Tag(t) => match v {
            NodeModel::Object(o) => exists|s: String, a: T, w: i64|
                s@ == t && a@ == o && w > 0 && #[trigger] tag_to_object_weight.ensures((&s, &a), w),
            NodeModel::Tag(_) => false,
        },
    }
}

/// The hop from `u` to `v` weighed zero or below (always so between
/// nodes of one kind).
pub open spec fn weighs_nothing<T: View, F: Fn(&T, &String) -> i64, G: Fn(&String, &T) -> i64>(
    object_to_tag_weight: F,
    tag_to_object_weight: G,
    u: NodeModel<T::V>,
    v: NodeModel<T::V>,
) -> bool {
    match u {
        NodeModel::Object(o) => match v {
            NodeModel::Tag(t) => exists|a: T, s: String, w: i64|
                a@ == o && s@ == t && w <= 0 && #[trigger] object_to_tag_weight.ensures((&a, &s), w),
            NodeModel::Object(_) => true,
        },
        NodeModel::Tag(t) => match v {
            NodeModel::Object(o) => exists|s: String, a: T, w: i64|
                s@ == t && a@ == o && w <= 0 && #[trigger] tag_to_object_weight.ensures((&s, &a), w),
            NodeModel::Tag(_) => true,
        },
    }
}

/// `p` is a path through `m` whose every hop weighed positive.
pub open spec fn is_weighted_path<T: View, F: Fn(&T, &String) -> i64, G: Fn(&String, &T) -> i64>(
    m: Map<NodeModel<T::V>, Seq<NodeModel<T::V>>>,
    object_to_tag_weight: F,
    tag_to_object_weight: G,
    p: Seq<NodeModel<T::V>>,
) -> bool {
    &&& p.len() > 0
    &&& forall|k: int| 0 <= k < p.len() ==> m.contains_key(#[trigger] p[k])
    &&& forall|k: int|
        0 <= k < p.len() - 1 ==> #[trigger] m[p[k]].contains(p[k + 1]) && weighs_positive(
            object_to_tag_weight,
            tag_to_object_weight,
            p[k],
            p[k + 1],
        )
}

/// `to` can be reached from `from` by hops that weighed positive.
pub open spec fn reached_from<T: View, F: Fn(&T, &String) -> i64, G: Fn(&String, &T) -> i64>(
    m: Map<NodeModel<T::V>, Seq<NodeModel<T::V>>>,
    object_to_tag_weight: F,
    tag_to_object_weight: G,
    from: NodeModel<T::V>,
    to: NodeModel<T::V>,
) -> bool {
    exists|p: Seq<NodeModel<T::V>>|
        #[trigger] is_weighted_path(m, object_to_tag_weight, tag_to_object_weight, p) && p[0] == from
            && p.last() == to
}

/// A seed's visit counts `c`, by node position, fit the walks from `seed`
/// with step budget `budget`: walks are started while fewer than `budget`
/// visits are counted, each of at most `depth` nodes, and all of each is
/// counted; the seed itself is counted; only nodes reached from it by
/// positive hops are counted; and unless its every way on weighed
/// nothing, a neighbour of the seed is counted (when `depth` is 2 or more).
pub open spec fn tally_fits<T: View, F: Fn(&T, &String) -> i64, G: Fn(&String, &T) -> i64>(
    m: Map<NodeModel<T::V>, Seq<NodeModel<T::V>>>,
    nodes: Seq<NodeModel<T::V>>,
    seed: NodeModel<T::V>,
    depth: nat,
    budget: nat,
    object_to_tag_weight: F,
    tag_to_object_weight: G,
    c: Seq<usize>,
) -> bool {
    let live = m.contains_key(seed) && depth > 0 && budget > 0;
    &&& c.len() == nodes.len()
    &&& live ==> budget <= count_sum(c) < budget + depth
    &&& !live ==> count_sum(c) == 0
    &&& live ==> forall|p: int| 0 <= p < nodes.len() && nodes[p] == seed ==> #[trigger] c[p] > 0
    &&& forall|p: int|
        0 <= p < c.len() && #[trigger] c[p] > 0 ==> reached_from(
            m,
            object_to_tag_weight,
            tag_to_object_weight,
            seed,
            nodes[p],
        )
    &&& live && depth >= 2 ==> (exists|p: int| 0 <= p < c.len() && #[trigger] c[p] > 0 && m[seed].contains(nodes[p]))
        || (forall|v: NodeModel<T::V>|
        #[trigger] m[seed].contains(v) ==> weighs_nothing(object_to_tag_weight, tag_to_object_weight, seed, v))
}

/// The score of the node at position `p`: the sum over the seeds of what
/// its visit count under each gives (see `visit_root`).
pub open spec fn tally_score(t: Seq<Seq<usize>>, p: int) -> nat
    decreases t.len(),
{
    if t.len() == 0 {
        0
    } else {
        tally_score(t.drop_last(), p) + visit_root(t.last()[p] as nat)
    }
}

/// `order` lists, best first, the positions of the nodes that are not seeds
/// and have a positive score: by descending score, then by position.
pub open spec fn ranked_order<V>(nodes: Seq<V>, seeds: Seq<V>, t: Seq<Seq<usize>>, order: Seq<int>) -> bool {
    &&& forall|p: int|
        (0 <= p < nodes.len() && !seeds.contains(nodes[p]) && tally_score(t, p) > 0) <==> #[trigger] order.contains(p)
    &&& forall|a: int, b: int|
        0 <= a < b < order.len() ==> tally_score(t, #[trigger] order[a]) > tally_score(t, #[trigger] order[b]) || (
        tally_score(t, order[a]) == tally_score(t, order[b]) && order[a] < order[b])
}

/// `r` is the ranking of the nodes for the seeds' visit counts `t`.
pub open spec fn ranking_of<V>(nodes: Seq<V>, seeds: Seq<V>, t: Seq<Seq<usize>>, r: Seq<V>) -> bool {
    exists|order: Seq<int>|
        #[trigger] ranked_order(nodes, seeds, t, order) && r == order.map_values(|p: int| nodes[p])
}

/// Visit counts `t` that fit walks from each of `seeds`, seed `i` with
/// step budget `budgets[i]` (see `tally_fits`).
pub open spec fn tallies_fit<T: View, F: Fn(&T, &String) -> i64, G: Fn(&String, &T) -> i64>(
    m: Map<NodeModel<T::V>, Seq<NodeModel<T::V>>>,
    nodes: Seq<NodeModel<T::V>>,
    seeds: Seq<NodeModel<T::V>>,
    depth: nat,
    budgets: Seq<nat>,
    object_to_tag_weight: F,
    tag_to_object_weight: G,
    t: Seq<Seq<usize>>,
) -> bool {
    &&& t.len() == seeds.len()
    &&& budgets.len() == seeds.len()
    &&& forall|i: int|
        0 <= i < t.len() ==> tally_fits(
            m,
            nodes,
            seeds[i],
            depth,
            budgets[i],
            object_to_tag_weight,
            tag_to_object_weight,
            #[trigger] t[i],
        )
}

/// The objects of `s`, in order.
pub open spec fn objects_of<V>(s: Seq<NodeModel<V>>) -> Seq<V>
    decreases s.len(),
{
    if s.len() == 0 {
        Seq::empty()
    } else {
        let init = objects_of(s.drop_last());
        match s.last() {
            NodeModel::Object(o) => init.push(o),
            NodeModel::Tag(_) => init,
        }
    }
}

/// `weight` gives, on an object and a tag, what `object_to_tag_weight`
/// gives; on a tag and an object, what `tag_to_object_weight` gives; and 0
/// on two nodes of one kind.
pub open spec fn combines<T: View, F: Fn(&T, &String) -> i64, G: Fn(&String, &T) -> i64, W: Fn(
    &RecommenderNode<T>,
    &RecommenderNode<T>,
) -> i64>(weight: W, object_to_tag_weight: F, tag_to_object_weight: G) -> bool {
    forall|a: &RecommenderNode<T>, b: &RecommenderNode<T>, w: i64|
        #[trigger] weight.ensures((a, b), w) ==> match (*a, *b) {
            (RecommenderNode::Object(o), RecommenderNode::Tag(t)) => object_to_tag_weight.ensures((&o, &t), w),
            (RecommenderNode::Tag(t), RecommenderNode::Object(o)) => tag_to_object_weight.ensures((&t, &o), w),
            _ => w == 0,
        }
}

proof fn lemma_combined_hops<T: View, F: Fn(&T, &String) -> i64, G: Fn(&String, &T) -> i64, W: Fn(
    &RecommenderNode<T>,
    &RecommenderNode<T>,
) -> i64>(weight: W, object_to_tag_weight: F, tag_to_object_weight: G, u: NodeModel<T::V>, v: NodeModel<T::V>)
    requires
        combines(weight, object_to_tag_weight, tag_to_object_weight),
    ensures
        passable(weight, u, v) ==> weighs_positive(object_to_tag_weight, tag_to_object_weight, u, v),
        blocked(weight, u, v) ==> weighs_nothing(object_to_tag_weight, tag_to_object_weight, u, v),
{
    if passable(weight, u, v) {
        let (a, b, w) = choose|a: RecommenderNode<T>, b: RecommenderNode<T>, w: i64|
            a@ == u && b@ == v && w > 0 && #[trigger] weight.ensures((&a, &b), w);
        match (a, b) {
            (RecommenderNode::Object(o), RecommenderNode::Tag(t)) => {
                assert(object_to_tag_weight.ensures((&o, &t), w));
            },
            (RecommenderNode::Tag(t), RecommenderNode::Object(o)) => {
                assert(tag_to_object_weight.ensures((&t, &o), w));
            },
            _ => {},
        }
    }
    if blocked(weight, u, v) {
        let (a, b, w) = choose|a: RecommenderNode<T>, b: RecommenderNode<T>, w: i64|
            a@ == u && b@ == v && w <= 0 && #[trigger] weight.ensures((&a, &b), w);
        match (a, b) {
            (RecommenderNode::Object(o), RecommenderNode::Tag(t)) => {
                assert(object_to_tag_weight.ensures((&o, &t), w));
            },
            (RecommenderNode::Tag(t), RecommenderNode::Object(o)) => {
                assert(tag_to_object_weight.ensures((&t, &o), w));
            },
            _ => {},
        }
    }
}

proof fn lemma_combined_reach<T: View, F: Fn(&T, &String) -> i64, G: Fn(&String, &T) -> i64, W: Fn(
    &RecommenderNode<T>,
    &RecommenderNode<T>,
) -> i64>(
    m: Map<NodeModel<T::V>, Seq<NodeModel<T::V>>>,
    weight: W,
    object_to_tag_weight: F,
    tag_to_object_weight: G,
    from: NodeModel<T::V>,
    to: NodeModel<T::V>,
)
    requires
        combines(weight, object_to_tag_weight, tag_to_object_weight),
        reaches(m, weight, from, to),
    ensures
        reached_from(m, object_to_tag_weight, tag_to_object_weight, from, to),
{
    let p = choose|p: Seq<NodeModel<T::V>>|
        #[trigger] is_passable_path::<RecommenderNode<T>, W>(m, weight, p) && p[0] == from && p.last() == to;
    assert(is_passable_path::<RecommenderNode<T>, W>(m, weight, p));
    assert forall|k: int| 0 <= k < p.len() - 1 implies #[trigger] m[p[k]].contains(p[k + 1]) && weighs_positive(
        object_to_tag_weight,
        tag_to_object_weight,
        p[k],
        p[k + 1],
    ) by {
        assert(m[p[k]].contains(p[k + 1]) && passable(weight, p[k], p[k + 1]));
        lemma_combined_hops(weight, object_to_tag_weight, tag_to_object_weight, p[k], p[k + 1]);
    }
    assert(is_weighted_path(m, object_to_tag_weight, tag_to_object_weight, p));
}

/// A recommender that holds objects, tags and their relationship,
/// and is able to return recommendations.
pub struct Recommender<T: View> {
    graph: Graph<RecommenderNode<T>>,
}

impl<T: NodeKey> View for Recommender<T> {
    type V = Map<NodeModel<T::V>, Seq<NodeModel<T::V>>>;

    closed spec fn view(&self) -> Map<NodeModel<T::V>, Seq<NodeModel<T::V>>> {
        self.graph@
    }
}

impl<T: NodeKey> Recommender<T> {
    /// The underlying graph is well formed, and its edges join objects to tags.
    pub closed spec fn wf(&self) -> bool {
        self.graph.wf() && joins_kinds(self.graph@)
    }

    /// Every edge of a well-formed recommender joins an object and a tag.
    pub proof fn lemma_joins_kinds(&self)
        requires
            self.wf(),
        ensures
            joins_kinds(self@),
    {
    }

    /// Creates a new recommender.
    pub fn new() -> (r: Recommender<T>)
        ensures
            r.wf(),
            r@ == Map::<NodeModel<T::V>, Seq<NodeModel<T::V>>>::empty(),
    {
        Recommender { graph: Graph::new() }
    }

    /// Adds an object to this recommender.
    pub fn add_object(&mut self, object: &T)
        requires
            old(self).wf(),
        ensures
            final(self).wf(),
            final(self)@ == with_node(old(self)@, NodeModel::Object(object@)),
    {
        proof {
            lemma_node_joins_kinds(self@, NodeModel::Object(object@));
        }
        self.graph.add_node(&RecommenderNode::Object(object.copy_node()));
    }

    /// Adds a tag to this recommender.
    pub fn add_tag(&mut self, tag: &str)
        requires
            old(self).wf(),
        ensures
            final(self).wf(),
            final(self)@ == with_node(old(self)@, NodeModel::<T::V>::Tag(tag@)),
    {
        proof {
            lemma_node_joins_kinds(self@, NodeModel::<T::V>::Tag(tag@));
        }
        self.graph.add_node(&RecommenderNode::Tag(tag.to_owned()));
    }

    /// Assigns a tag to an object.
    pub fn tag_object(&mut self, object: &T, tag: &str)
        requires
            old(self).wf(),
        ensures
            final(self).wf(),
            final(self)@ == with_edge(old(self)@, NodeModel::Object(object@), NodeModel::<T::V>::Tag(tag@)),
    {
        proof {
            lemma_tagging_joins_kinds(self@, object@, tag@);
        }
        self.graph.add_edge(
            &RecommenderNode::Object(object.copy_node()),
            &RecommenderNode::Tag(tag.to_owned()),
        );
    }

    /// Tallies the nodes that walks from `from` visit: walks of at most
    /// `depth` nodes, drawn with `weight_fun`, are started while fewer than
    /// `max_total_steps` visits are counted, and all of each walk is
    /// counted. Each visited node comes once, with its count. Nothing is
    /// counted from a node that is not in the recommender, or when `depth`
    /// or `max_total_steps` is 0.
    pub fn recommendations_map<F: Fn(&RecommenderNode<T>, &RecommenderNode<T>) -> i64>(
        &self,
        from: &RecommenderNode<T>,
        depth: u8,
        max_total_steps: usize,
        weight_fun: F,
    ) -> (r: Vec<(RecommenderNode<T>, usize)>)
        requires
            self.wf(),
            forall|a: &RecommenderNode<T>, b: &RecommenderNode<T>| weight_fun.requires((a, b)),
            max_total_steps + depth <= usize::MAX,
        ensures
            forall|k: int|
                0 <= k < r.len() ==> self@.contains_key((#[trigger] r[k]).0@) && r[k].1 > 0 && reaches(
                    self@,
                    weight_fun,
                    from@,
                    r[k].0@,
                ),
            forall|j: int, k: int| 0 <= j < k < r.len() ==> (#[trigger] r[j]).0@ != (#[trigger] r[k]).0@,
            self@.contains_key(from@) && depth > 0 && max_total_steps > 0 ==> max_total_steps <= visit_total(r@)
                < max_total_steps + depth,
            !(self@.contains_key(from@) && depth > 0 && max_total_steps > 0) ==> visit_total(r@) == 0,
            self@.contains_key(from@) && depth > 0 && max_total_steps > 0 ==> exists|k: int|
                0 <= k < r.len() && (#[trigger] r[k]).0@ == from@,
            self@.contains_key(from@) && depth >= 2 && max_total_steps > 0 ==> (exists|k: int|
                0 <= k < r.len() && self@[from@].contains((#[trigger] r[k]).0@)) || (forall|v: NodeModel<T::V>|
                #[trigger] self@[from@].contains(v) ==> blocked(weight_fun, from@, v)),
            exists|walks: Seq<Seq<NodeModel<T::V>>>|
                #[trigger] walks_fill(self@, weight_fun, from@, depth as nat, max_total_steps as nat, walks)
                    && (forall|k: int| 0 <= k < r.len() ==> (#[trigger] r[k]).1 == occurrences(joined(walks), r[k].0@))
                    && (forall|v: NodeModel<T::V>| #[trigger] occurrences(joined(walks), v) > 0 ==> exists|k: int|
                        0 <= k < r.len() && r[k].0@ == v),
    {
        let mut out: Vec<(RecommenderNode<T>, usize)> = Vec::new();
        match self.graph.find(from) {
            None => {
                proof {
                    let walks = Seq::<Seq<NodeModel<T::V>>>::empty();
                    assert(joined(walks) =~= Seq::<NodeModel<T::V>>::empty());
                    assert(walks_fill(self@, weight_fun, from@, depth as nat, max_total_steps as nat, walks));
                }
                out
            },
            Some(s) => {
                let counts = self.graph.tally_positions(s, depth, max_total_steps, &weight_fun);
                let n = self.graph.len();
                let ghost mut pos: Seq<int> = Seq::empty();
                proof {
                    self.graph.lemma_positions();
                }
                let mut i: usize = 0;
                while i < n
                    invariant
                        self.wf(),
                        n == self.graph.node_count(),
                        counts.len() == n,
                        s < n,
                        i <= n,
                        out.len() == pos.len(),
                        forall|k: int| 0 <= k < pos.len() ==> 0 <= #[trigger] pos[k] < i,
                        forall|j: int, k: int| 0 <= j < k < pos.len() ==> #[trigger] pos[j] < #[trigger] pos[k],
                        forall|k: int|
                            0 <= k < out.len() ==> (#[trigger] out[k]).0@ == self.graph.node_view(pos[k])
                                && out[k].1 == counts[pos[k]] && counts[pos[k]] > 0,
                        forall|p: int| 0 <= p < i && counts[p] > 0 ==> #[trigger] pos.contains(p),
                        visit_total(out@) == count_sum(counts@.take(i as int)),
                        forall|p: int| 0 <= p < n ==> self@.contains_key(#[trigger] self.graph.node_view(p)),
                        forall|p: int, q: int|
                            0 <= p < n && 0 <= q < n && p != q ==> self.graph.node_view(p) != self.graph.node_view(q),
                    decreases n - i,
                {
                    proof {
                        lemma_count_sum_step(counts@, i as int);
                    }
                    if counts[i] > 0 {
                        let node = self.graph.node_at(i);
                        let ghost before = out@;
                        out.push((node, counts[i]));
                        proof {
                            assert(out@.drop_last() =~= before);
                            let old_pos = pos;
                            pos = pos.push(i as int);
                            assert(pos[pos.len() - 1] == i as int);
                            assert forall|k: int| 0 <= k < out.len() implies (#[trigger] out[k]).0@
                                == self.graph.node_view(pos[k]) && out[k].1 == counts[pos[k]]
                                && counts[pos[k]] > 0 by {
                                if k < before.len() {
                                    assert(out[k] == before[k]);
                                    assert(pos[k] == old_pos[k]);
                                }
                            }
                            assert forall|p: int| 0 <= p < i + 1 && counts[p] > 0 implies #[trigger] pos.contains(p) by {
                                if p < i {
                                    assert(old_pos.contains(p));
                                    let k = choose|k: int| 0 <= k < old_pos.len() && old_pos[k] == p;
                                    assert(pos[k] == p);
                                }
                            }
                        }
                    }
                    i = i + 1;
                }
                proof {
                    let sv = self.graph.node_view(s as int);
                    assert(counts@.take(n as int) =~= counts@);
                    assert forall|j: int, k: int| 0 <= j < k < out.len() implies (#[trigger] out[j]).0@
                        != (#[trigger] out[k]).0@ by {
                        assert(pos[j] < pos[k]);
                    }
                    assert forall|k: int| 0 <= k < out.len() implies self@.contains_key((#[trigger] out[k]).0@)
                        && out[k].1 > 0 && reaches(self@, weight_fun, from@, out[k].0@) by {
                        let p = pos[k];
                        let o = out[k];
                        assert(o.0@ == self.graph.node_view(pos[k]));
                        assert(o.1 == counts[pos[k]] && counts[pos[k]] > 0);
                        assert(0 <= p < counts.len());
                    }
                    if depth > 0 && max_total_steps > 0 {
                        assert(counts[s as int] > 0);
                        assert(pos.contains(s as int));
                        let k = choose|k: int| 0 <= k < pos.len() && pos[k] == s as int;
                        assert(out[k].0@ == from@);
                    }
                    let walks = choose|walks: Seq<Seq<NodeModel<T::V>>>|
                        #[trigger] walks_fill(self@, weight_fun, sv, depth as nat, max_total_steps as nat, walks)
                            && (forall|p: int| 0 <= p < counts.len() ==> #[trigger] counts[p] == occurrences(joined(walks), self.graph.node_view(p)))
                            && (forall|v: NodeModel<T::V>| #[trigger] occurrences(joined(walks), v) > 0 ==> exists|p: int|
                                0 <= p < counts.len() && self.graph.node_view(p) == v);
                    assert forall|k: int| 0 <= k < out.len() implies (#[trigger] out[k]).1 == occurrences(joined(walks), out[k].0@) by {
                        assert(out[k].1 == counts[pos[k]]);
                    }
                    assert forall|v: NodeModel<T::V>| #[trigger] occurrences(joined(walks), v) > 0 implies exists|k: int|
                        0 <= k < out.len() && out[k].0@ == v by {
                        let p = choose|p: int| 0 <= p < counts.len() && self.graph.node_view(p) == v;
                        assert(counts[p] > 0);
                        assert(pos.contains(p));
                        let k = choose|k: int| 0 <= k < pos.len() && pos[k] == p;
                        assert(out[k].0@ == v);
                    }
                    if depth >= 2 && max_total_steps > 0 {
                        if exists|p: int|
                            0 <= p < counts.len() && #[trigger] counts[p] > 0 && self@[sv].contains(
                                self.graph.node_view(p),
                            ) {
                            let p = choose|p: int|
                                0 <= p < counts.len() && #[trigger] counts[p] > 0 && self@[sv].contains(
                                    self.graph.node_view(p),
                                );
                            assert(pos.contains(p));
                            let k = choose|k: int| 0 <= k < pos.len() && pos[k] == p;
                            assert(out[k].0@ == self.graph.node_view(p));
                            assert(self@[from@].contains(out[k].0@));
                        }
                    }
                }
                out
            },
        }
    }

    /// The nodes in order of insertion, by position.
    pub closed spec fn node_seq(&self) -> Seq<NodeModel<T::V>> {
        Seq::new(self.graph.node_count(), |p: int| self.graph.node_view(p))
    }

    /// Each node of the recommender has one position.
    pub proof fn lemma_node_seq(&self)
        requires
            self.wf(),
        ensures
            self.node_seq().no_duplicates(),
            forall|v: NodeModel<T::V>| self@.contains_key(v) <==> #[trigger] self.node_seq().contains(v),
    {
        self.graph.lemma_positions();
        let s = self.node_seq();
        assert forall|v: NodeModel<T::V>| self@.contains_key(v) <==> #[trigger] s.contains(v) by {
            if self@.contains_key(v) {
                let p = choose|p: int| 0 <= p < self.graph.node_count() && self.graph.node_view(p) == v;
                assert(s[p] == v);
            }
            if s.contains(v) {
                let p = choose|p: int| 0 <= p < s.len() && s[p] == v;
                assert(self@.contains_key(self.graph.node_view(p)));
            }
        }
    }

    /// What a query of `seeds` may return: the ranking (see `ranking_of`)
    /// of visit counts that fit walks from each seed (see `tally_fits`),
    /// each seed with its share of `max_total_steps` (see `seed_budgets`).
    pub open spec fn recommendation_outcome<F: Fn(&T, &String) -> i64, G: Fn(&String, &T) -> i64>(
        &self,
        seeds: Seq<NodeModel<T::V>>,
        depth: nat,
        max_total_steps: nat,
        object_to_tag_weight: F,
        tag_to_object_weight: G,
        r: Seq<NodeModel<T::V>>,
    ) -> bool {
        exists|t: Seq<Seq<usize>>|
            #[trigger] tallies_fit(
                self@,
                self.node_seq(),
                seeds,
                depth,
                budget_split(seed_factors(self@, seeds), max_total_steps),
                object_to_tag_weight,
                tag_to_object_weight,
                t,
            ) && ranking_of(self.node_seq(), seeds, t, r)
    }

    /// Ranks the nodes for given visit counts: `tallies[i][p]` is how often
    /// the walks from `queries[i]` visited the node at position `p` (see
    /// `node_seq`). A node scores the sum over the queries of the square
    /// roots of its counts; the queries are left out, and the other nodes
    /// with a positive score come best first, ties by position.
    pub fn rank_tallies(&self, queries: &Vec<RecommenderNode<T>>, tallies: &Vec<Vec<usize>>) -> (r: Vec<
        RecommenderNode<T>,
    >)
        requires
            self.wf(),
            forall|i: int| 0 <= i < tallies.len() ==> (#[trigger] tallies[i]).len() == self.node_seq().len(),
        ensures
            ranking_of(
                self.node_seq(),
                node_models(queries@),
                tallies@.map_values(|c: Vec<usize>| c@),
                node_models(r@),
            ),
    {
        let n = self.graph.len();
        let ghost t = tallies@.map_values(|c: Vec<usize>| c@);
        let ghost seeds = node_models(queries@);
        let ghost nodes = self.node_seq();
        proof {
            self.graph.lemma_positions();
            lemma_no_visits_no_score();
        }
        let mut scores: Vec<u128> = Vec::new();
        let mut excluded: Vec<bool> = Vec::new();
        let mut p: usize = 0;
        while p < n
            invariant
                p <= n,
                scores.len() == p,
                excluded.len() == p,
                forall|j: int| 0 <= j < p ==> scores[j] == 0 && !excluded[j],
            decreases n - p,
        {
            scores.push(0);
            excluded.push(false);
            p = p + 1;
        }
        let mut i: usize = 0;
        while i < tallies.len()
            invariant
                n == self.graph.node_count(),
                nodes == self.node_seq(),
                t == tallies@.map_values(|c: Vec<usize>| c@),
                nodes.len() == n,
                forall|k: int| 0 <= k < tallies.len() ==> (#[trigger] tallies[k]).len() == nodes.len(),
                i <= tallies.len(),
                scores.len() == n,
                forall|j: int| 0 <= j < n ==> #[trigger] scores[j] <= i * 0x1_0000_0000_0000,
                forall|j: int| 0 <= j < n ==> #[trigger] scores[j] == tally_score(t.take(i as int), j),
            decreases tallies.len() - i,
        {
            proof {
                assert forall|j: int| 0 <= j < n implies #[trigger] scores[j] <= u128::MAX - 0x1_0000_0000_0000 by {
                    assert(i < 0x1_0000_0000_0000_0000);
                    assert(i * 0x1_0000_0000_0000 <= 0x1_0000_0000_0000_0000 * 0x1_0000_0000_0000)
                        by (nonlinear_arith)
                        requires
                            i < 0x1_0000_0000_0000_0000,
                    ;
                }
            }
            let ghost before = scores@;
            add_visit_roots(&mut scores, &tallies[i]);
            proof {
                assert(t.take(i as int + 1).drop_last() =~= t.take(i as int));
                assert forall|j: int| 0 <= j < n implies #[trigger] scores[j] <= (i + 1) * 0x1_0000_0000_0000
                    && scores[j] == tally_score(t.take(i as int + 1), j) by {
                    lemma_visit_root_bound(tallies[i as int][j] as nat);
                    assert(t[i as int] == tallies[i as int]@);
                    assert(scores[j] == before[j] + visit_root(tallies[i as int][j] as nat));
                    assert(i * 0x1_0000_0000_0000 + 0x1_0000_0000_0000 == (i + 1) * 0x1_0000_0000_0000)
                        by (nonlinear_arith);
                }
            }
            i = i + 1;
        }
        proof {
            assert(t.take(tallies.len() as int) =~= t);
        }
        let mut qi: usize = 0;
        while qi < queries.len()
            invariant
                self.wf(),
                n == self.graph.node_count(),
                nodes == self.node_seq(),
                seeds == node_models(queries@),
                nodes.len() == n,
                qi <= queries.len(),
                excluded.len() == n,
                forall|j: int| 0 <= j < n ==> (#[trigger] excluded[j] <==> seeds.take(qi as int).contains(nodes[j])),
                forall|q: int| 0 <= q < n ==> self@.contains_key(#[trigger] self.graph.node_view(q)),
                forall|a: int, b: int|
                    0 <= a < n && 0 <= b < n && a != b ==> self.graph.node_view(a) != self.graph.node_view(b),
            decreases queries.len() - qi,
        {
            let ghost before = excluded@;
            let found = self.graph.find(&queries[qi]);
            match found {
                None => {},
                Some(s) => {
                    excluded.set(s, true);
                },
            }
            proof {
                let sq = seeds.take(qi as int + 1);
                assert(sq.drop_last() =~= seeds.take(qi as int));
                assert(seeds[qi as int] == queries[qi as int]@);
                assert forall|j: int| 0 <= j < n implies (#[trigger] excluded[j] <==> sq.contains(nodes[j])) by {
                    assert(nodes[j] == self.graph.node_view(j));
                    if sq.contains(nodes[j]) && !seeds.take(qi as int).contains(nodes[j]) {
                        let k = choose|k: int| 0 <= k < sq.len() && sq[k] == nodes[j];
                        if k < qi {
                            assert(seeds.take(qi as int)[k] == nodes[j]);
                        }
                    }
                    if seeds.take(qi as int).contains(nodes[j]) {
                        let k = choose|k: int| 0 <= k < qi && seeds.take(qi as int)[k] == nodes[j];
                        assert(sq[k] == nodes[j]);
                    }
                    if found is Some && excluded[j] && !before[j] {
                        assert(sq[qi as int] == nodes[j]);
                    }
                }
            }
            qi = qi + 1;
        }
        proof {
            assert(seeds.take(queries.len() as int) =~= seeds);
        }
        let order = rank_by_score(&scores, &excluded);
        let mut out: Vec<RecommenderNode<T>> = Vec::new();
        let mut k: usize = 0;
        proof {
            assert forall|j: int| 0 <= j < order.len() implies #[trigger] order[j] < n by {
                assert(order@.contains(order[j]));
            }
        }
        while k < order.len()
            invariant
                self.wf(),
                n == self.graph.node_count(),
                k <= order.len(),
                out.len() == k,
                forall|j: int| 0 <= j < k ==> (#[trigger] out[j])@ == self.graph.node_view(order[j] as int),
                forall|j: int| 0 <= j < order.len() ==> #[trigger] order[j] < n,
            decreases order.len() - k,
        {
            out.push(self.graph.node_at(order[k]));
            k = k + 1;
        }
        proof {
            let ord = order@.map_values(|x: usize| x as int);
            assert forall|q: int|
                (0 <= q < nodes.len() && !seeds.contains(nodes[q]) && tally_score(t, q) > 0) <==> #[trigger] ord.contains(q) by {
                if ord.contains(q) {
                    let j = choose|j: int| 0 <= j < ord.len() && ord[j] == q;
                    assert(order@.contains(order[j]));
                    assert(is_ranked(scores@, excluded@, q));
                }
                if 0 <= q < nodes.len() && !seeds.contains(nodes[q]) && tally_score(t, q) > 0 {
                    assert(is_ranked(scores@, excluded@, q));
                    assert(order@.contains(q as usize));
                    let j = choose|j: int| 0 <= j < order.len() && order[j] == q as usize;
                    assert(ord[j] == q);
                }
            }
            assert forall|a: int, b: int| 0 <= a < b < ord.len() implies tally_score(t, #[trigger] ord[a])
                > tally_score(t, #[trigger] ord[b]) || (tally_score(t, ord[a]) == tally_score(t, ord[b])
                && ord[a] < ord[b]) by {
                assert(ranks_before(scores@, order[a] as int, order[b] as int));
            }
            assert(ranked_order(nodes, seeds, t, ord));
            assert(node_models(out@) =~= ord.map_values(|p: int| nodes[p]));
        }
        out
    }

    /// Receives a set of queries (that can be either tags or objects) and
    /// returns an ordered sequence of recommendations (with the first one
    /// being the "best" one).
    ///
    /// Each query gets a share of `max_total_steps` in proportion to its
    /// scaling factor (see `seed_budgets`); walks of at most `depth` nodes
    /// from it, weighted by `object_to_tag_weight` from an object to a tag
    /// and by `tag_to_object_weight` from a tag to an object (0 otherwise),
    /// spend that share. The visit counts are then ranked by `rank_tallies`:
    /// the queries themselves are left out, and the rest come best first.
    ///
    /// The resulting recommendations can be either objects or tags, so it
    /// is advised to filter the result according to the expectations.
    pub fn recommendations<
        F: Fn(&T, &String) -> i64,
        G: Fn(&String, &T) -> i64,
    >(
        &self,
        queries: &Vec<RecommenderNode<T>>,
        depth: u8,
        max_total_steps: usize,
        object_to_tag_weight: F,
        tag_to_object_weight: G,
    ) -> (r: Vec<RecommenderNode<T>>)
        requires
            self.wf(),
            forall|o: &T, t: &String| object_to_tag_weight.requires((o, t)),
            forall|t: &String, o: &T| tag_to_object_weight.requires((t, o)),
            max_total_steps + depth <= usize::MAX,
        ensures
            self.recommendation_outcome(
                node_models(queries@),
                depth as nat,
                max_total_steps as nat,
                object_to_tag_weight,
                tag_to_object_weight,
                node_models(r@),
            ),
            forall|k: int, q: int|
                0 <= k < r.len() && 0 <= q < queries.len() ==> (#[trigger] r[k])@ != (#[trigger] queries[q])@,
    {
        let o2t = &object_to_tag_weight;
        let t2o = &tag_to_object_weight;
        let weight = |from: &RecommenderNode<T>, to: &RecommenderNode<T>| -> (w: i64)
            requires
                forall|o: &T, t: &String| o2t.requires((o, t)),
                forall|t: &String, o: &T| t2o.requires((t, o)),
            ensures
                match (*from, *to) {
                    (RecommenderNode::Object(o), RecommenderNode::Tag(t)) => (*o2t).ensures((&o, &t), w),
                    (RecommenderNode::Tag(t), RecommenderNode::Object(o)) => (*t2o).ensures((&t, &o), w),
                    _ => w == 0,
                },
            {
                match (from, to) {
                    (RecommenderNode::Tag(tag), RecommenderNode::Object(obj)) => t2o(tag, obj),
                    (RecommenderNode::Object(obj), RecommenderNode::Tag(tag)) => o2t(obj, tag),
                    _ => 0,
                }
            };
        let ghost seeds = node_models(queries@);
        let ghost nodes = self.node_seq();
        let ghost split = budget_split(seed_factors(self@, seeds), max_total_steps as nat);
        let budgets = self.seed_budgets(queries, max_total_steps);
        let n = self.graph.len();
        proof {
            self.graph.lemma_positions();
            assert(combines(weight, object_to_tag_weight, tag_to_object_weight));
        }
        let mut tallies: Vec<Vec<usize>> = Vec::new();
        let mut qi: usize = 0;
        while qi < queries.len()
            invariant
                self.wf(),
                n == self.graph.node_count(),
                nodes == self.node_seq(),
                seeds == node_models(queries@),
                forall|a: &RecommenderNode<T>, b: &RecommenderNode<T>| weight.requires((a, b)),
                combines(weight, object_to_tag_weight, tag_to_object_weight),
                max_total_steps + depth <= usize::MAX,
                budgets.len() == queries.len(),
                forall|j: int| 0 <= j < budgets.len() ==> budgets[j] == #[trigger] split[j],
                count_sum(budgets@) <= max_total_steps,
                qi <= queries.len(),
                tallies.len() == qi,
                forall|j: int|
                    0 <= j < qi ==> tally_fits(
                        self@,
                        nodes,
                        seeds[j],
                        depth as nat,
                        split[j],
                        object_to_tag_weight,
                        tag_to_object_weight,
                        (#[trigger] tallies[j])@,
                    ),
                forall|p: int| 0 <= p < n ==> self@.contains_key(#[trigger] self.graph.node_view(p)),
                forall|p: int, q: int|
                    0 <= p < n && 0 <= q < n && p != q ==> self.graph.node_view(p) != self.graph.node_view(q),
            decreases queries.len() - qi,
        {
            let ghost seed = seeds[qi as int];
            proof {
                assert(seed == queries[qi as int]@);
                lemma_count_le_sum(budgets@, qi as int);
            }
            let found = self.graph.find(&queries[qi]);
            match found {
                None => {
                    let mut zeros: Vec<usize> = Vec::new();
                    let mut p: usize = 0;
                    while p < n
                        invariant
                            p <= n,
                            zeros.len() == p,
                            forall|j: int| 0 <= j < p ==> zeros[j] == 0,
                        decreases n - p,
                    {
                        zeros.push(0);
                        p = p + 1;
                    }
                    proof {
                        lemma_count_sum_zeros(zeros@);
                    }
                    tallies.push(zeros);
                },
                Some(s) => {
                    let counts = self.graph.tally_positions(s, depth, budgets[qi], &weight);
                    proof {
                        let sv = self.graph.node_view(s as int);
                        assert(sv == seed);
                        assert forall|p: int| 0 <= p < counts.len() && #[trigger] counts[p] > 0 implies reached_from(
                            self@,
                            object_to_tag_weight,
                            tag_to_object_weight,
                            seed,
                            nodes[p],
                        ) by {
                            assert(nodes[p] == self.graph.node_view(p));
                            lemma_combined_reach(self@, weight, object_to_tag_weight, tag_to_object_weight, seed, nodes[p]);
                        }
                        if depth > 0 && budgets[qi as int] > 0 {
                            assert forall|p: int| 0 <= p < nodes.len() && nodes[p] == seed implies #[trigger] counts[p] > 0 by {
                                assert(nodes[p] == self.graph.node_view(p));
                                if p != s {
                                    assert(self.graph.node_view(p) != self.graph.node_view(s as int));
                                }
                            }
                        }
                        if depth >= 2 && budgets[qi as int] > 0 {
                            if exists|p: int|
                                0 <= p < counts.len() && #[trigger] counts[p] > 0 && self@[sv].contains(self.graph.node_view(p)) {
                                let p = choose|p: int|
                                    0 <= p < counts.len() && #[trigger] counts[p] > 0 && self@[sv].contains(self.graph.node_view(p));
                                assert(nodes[p] == self.graph.node_view(p));
                            } else {
                                assert forall|v: NodeModel<T::V>| #[trigger] self@[seed].contains(v) implies weighs_nothing(
                                    object_to_tag_weight,
                                    tag_to_object_weight,
                                    seed,
                                    v,
                                ) by {
                                    lemma_combined_hops(weight, object_to_tag_weight, tag_to_object_weight, seed, v);
                                }
                            }
                        }
                    }
                    tallies.push(counts);
                },
            }
            proof {
                assert(tallies[qi as int]@.len() == nodes.len());
                assert(tally_fits(
                    self@,
                    nodes,
                    seeds[qi as int],
                    depth as nat,
                    split[qi as int],
                    object_to_tag_weight,
                    tag_to_object_weight,
                    tallies[qi as int]@,
                ));
            }
            qi = qi + 1;
        }
        let r = self.rank_tallies(queries, &tallies);
        proof {
            let t = tallies@.map_values(|c: Vec<usize>| c@);
            assert forall|i: int| 0 <= i < t.len() implies tally_fits(
                self@,
                nodes,
                seeds[i],
                depth as nat,
                split[i],
                object_to_tag_weight,
                tag_to_object_weight,
                #[trigger] t[i],
            ) by {
                assert(t[i] == tallies[i]@);
            }
            assert(tallies_fit(self@, nodes, seeds, depth as nat, split, object_to_tag_weight, tag_to_object_weight, t));
            let order = choose|order: Seq<int>|
                #[trigger] ranked_order(nodes, seeds, t, order) && node_models(r@) == order.map_values(|p: int| nodes[p]);
            assert forall|k: int, q: int|
                0 <= k < r.len() && 0 <= q < queries.len() implies (#[trigger] r[k])@ != (#[trigger] queries[q])@ by {
                assert(node_models(r@).len() == r.len());
                assert(order.len() == r.len());
                assert(node_models(r@)[k] == r[k]@);
                assert(node_models(r@)[k] == nodes[order[k]]);
                assert(order.contains(order[k]));
                assert(seeds[q] == queries[q]@);
                assert(!seeds.contains(nodes[order[k]]));
            }
        }
        r
    }

    /// Receives a set of queries (that can only be objects) and returns an
    /// ordered sequence of recommended objects (with the first one being the
    /// "best" one): the objects among `recommendations` for those queries,
    /// in the same order.
    pub fn object_recommendations<
        F: Fn(&T, &String) -> i64,
        G: Fn(&String, &T) -> i64,
    >(
        &self,
        queries: &Vec<T>,
        depth: u8,
        max_total_steps: usize,
        object_to_tag_weight: F,
        tag_to_object_weight: G,
    ) -> (r: Vec<T>)
        requires
            self.wf(),
            forall|o: &T, t: &String| object_to_tag_weight.requires((o, t)),
            forall|t: &String, o: &T| tag_to_object_weight.requires((t, o)),
            max_total_steps + depth <= usize::MAX,
        ensures
            exists|recs: Seq<NodeModel<T::V>>|
                #[trigger] self.recommendation_outcome(
                    object_models(queries@),
                    depth as nat,
                    max_total_steps as nat,
                    object_to_tag_weight,
                    tag_to_object_weight,
                    recs,
                ) && r@.map_values(|x: T| x@) == objects_of(recs),
            forall|k: int, q: int|
                0 <= k < r.len() && 0 <= q < queries.len() ==> (#[trigger] r[k])@ != (#[trigger] queries[q])@,
    {
        let mut node_queries: Vec<RecommenderNode<T>> = Vec::new();
        let mut i: usize = 0;
        while i < queries.len()
            invariant
                i <= queries.len(),
                node_queries.len() == i,
                forall|q: int| 0 <= q < i ==> (#[trigger] node_queries[q])@ == NodeModel::Object(queries[q]@),
            decreases queries.len() - i,
        {
            node_queries.push(RecommenderNode::Object(queries[i].copy_node()));
            i = i + 1;
        }
        proof {
            assert(node_models(node_queries@) =~= object_models(queries@));
        }
        let recs = self.recommendations(
            &node_queries,
            depth,
            max_total_steps,
            object_to_tag_weight,
            tag_to_object_weight,
        );
        let ghost rv = node_models(recs@);
        let mut out: Vec<T> = Vec::new();
        let ghost mut pos: Seq<int> = Seq::empty();
        let mut k: usize = 0;
        while k < recs.len()
            invariant
                rv == node_models(recs@),
                k <= recs.len(),
                out.len() == pos.len(),
                forall|m: int| 0 <= m < pos.len() ==> 0 <= #[trigger] pos[m] < k,
                forall|m: int| 0 <= m < out.len() ==> recs[pos[m]]@ == NodeModel::Object((#[trigger] out[m])@),
                out@.map_values(|x: T| x@) == objects_of(rv.take(k as int)),
            decreases recs.len() - k,
        {
            let ghost before = out@;
            proof {
                assert(rv.take(k as int + 1).drop_last() =~= rv.take(k as int));
                assert(rv.take(k as int + 1).last() == recs[k as int]@);
            }
            match &recs[k] {
                RecommenderNode::Tag(_) => {},
                RecommenderNode::Object(obj) => {
                    out.push(obj.copy_node());
                    proof {
                        let old_pos = pos;
                        pos = pos.push(k as int);
                        assert forall|m: int| 0 <= m < out.len() implies recs[pos[m]]@ == NodeModel::Object(
                            (#[trigger] out[m])@,
                        ) by {
                            if m < before.len() {
                                assert(out[m] == before[m]);
                                assert(pos[m] == old_pos[m]);
                            }
                        }
                        assert(out@.map_values(|x: T| x@) =~= before.map_values(|x: T| x@).push(obj@));
                    }
                },
            }
            k = k + 1;
        }
        proof {
            assert(rv.take(recs.len() as int) =~= rv);
            assert forall|m: int, q: int|
                0 <= m < out.len() && 0 <= q < queries.len() implies (#[trigger] out[m])@ != (#[trigger] queries[q])@ by {
                assert(recs[pos[m]]@ != node_queries[q]@);
            }
            assert(self.recommendation_outcome(
                object_models(queries@),
                depth as nat,
                max_total_steps as nat,
                object_to_tag_weight,
                tag_to_object_weight,
                rv,
            ));
        }
        out
    }

    /// Shares `max_total_steps` among the queries: each gets its share in
    /// proportion to its scaling factor, rounded down, and together they
    /// never get more than the whole.
    pub fn seed_budgets(&self, queries: &Vec<RecommenderNode<T>>, max_total_steps: usize) -> (r: Vec<usize>)
        requires
            self.wf(),
        ensures
            r.len() == queries.len(),
            forall|i: int|
                0 <= i < r.len() ==> r[i] == #[trigger] budget_split(
                    seed_factors(self@, node_models(queries@)),
                    max_total_steps as nat,
                )[i],
            count_sum(r@) <= max_total_steps,
    {
        let max_degree = self.graph.max_degree();
        proof {
            lemma_max_degree_unique(self@, max_degree as nat, max_degree_of(self@));
        }
        let ghost wanted = seed_factors(self@, node_models(queries@));
        let mut factors: Vec<u64> = Vec::new();
        let mut i: usize = 0;
        while i < queries.len()
            invariant
                self.wf(),
                is_max_degree(self@, max_degree as nat),
                max_degree as nat == max_degree_of(self@),
                wanted == seed_factors(self@, node_models(queries@)),
                i <= queries.len(),
                factors.len() == i,
                forall|q: int| 0 <= q < i ==> factors[q] == #[trigger] wanted[q],
            decreases queries.len() - i,
        {
            let d = self.graph.degree(&queries[i]);
            proof {
                if self@.contains_key(queries[i as int]@) {
                    assert(degree_of(self@, queries[i as int]@) <= max_degree);
                }
                assert(node_models(queries@)[i as int] == queries[i as int]@);
            }
            factors.push(scaling_factor(d, max_degree));
            i = i + 1;
        }
        assert(factors@ =~= wanted);
        split_budget(&factors, max_total_steps)
    }
}

} // verus!
