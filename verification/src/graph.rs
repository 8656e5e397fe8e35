//! The dependency graph store: packages as nodes, aliased dependency
//! arcs as edges, with walks, reachability, cycles, a deterministic
//! topological sort and cycle extraction.

use vstd::prelude::*;
use crate::registry::{
    PackageId, PackageIdView, PackageInfo, PackageInfoView, DistributionInfo, DistributionView,
};

verus! {

/// One package of the graph: its id, its manifest, and the distribution
/// payload the registry attached (the root node has none).
#[derive(Debug, PartialEq, Eq)]
pub struct Node {
    pub id: PackageId,
    pub pkg: PackageInfo,
    pub dist: Option<DistributionInfo>,
}

/// The mathematical content of a [`Node`].
pub struct NodeView {
    pub id: PackageIdView,
    pub pkg: PackageInfoView,
    pub dist: Option<DistributionView>,
}

impl View for Node {
    type V = NodeView;

    open spec fn view(&self) -> NodeView {
        NodeView {
            id: self.id@,
            pkg: self.pkg@,
            dist: match &self.dist {
                Some(d) => Some(d@),
                None => None,
            },
        }
    }
}

impl DeepView for Node {
    type V = NodeView;

    open spec fn deep_view(&self) -> NodeView {
        self.view()
    }
}

impl Clone for Node {
    /// A copy holding the same package.
    fn clone(&self) -> (r: Self)
        ensures
            r@ == self@,
    {
        let r = Node {
            id: self.id.clone(),
            pkg: self.pkg.clone(),
            dist: match &self.dist {
                Some(d) => Some(d.clone()),
                None => None,
            },
        };
        proof {
            assert(r@ =~= self@);
        }
        r
    }
}

/// One dependency arc: from the dependee to the dependency, weighted
/// with the alias the dependee uses.
#[derive(Debug, PartialEq, Eq)]
pub struct Edge {
    pub from: usize,
    pub to: usize,
    pub alias: String,
}

/// The mathematical content of an [`Edge`].
pub struct EdgeView {
    pub from: int,
    pub to: int,
    pub alias: Seq<char>,
}

impl View for Edge {
    type V = EdgeView;

    open spec fn view(&self) -> EdgeView {
        EdgeView { from: self.from as int, to: self.to as int, alias: self.alias@ }
    }
}

impl DeepView for Edge {
    type V = EdgeView;

    open spec fn deep_view(&self) -> EdgeView {
        self.view()
    }
}

impl Clone for Edge {
    /// A copy of the same arc.
    fn clone(&self) -> (r: Self)
        ensures
            r@ == self@,
    {
        let r = Edge { from: self.from, to: self.to, alias: self.alias.clone() };
        proof {
            assert(r@ =~= self@);
        }
        r
    }
}

/// The dependency graph: nodes in discovery order, edges in insertion
/// order, and the root's index.
#[derive(Debug, PartialEq, Eq)]
pub struct DependencyGraph {
    pub root_index: usize,
    pub nodes: Vec<Node>,
    pub edges: Vec<Edge>,
}

/// The mathematical content of a [`DependencyGraph`].
pub struct GraphView {
    pub root: int,
    pub nodes: Seq<NodeView>,
    pub edges: Seq<EdgeView>,
}

impl View for DependencyGraph {
    type V = GraphView;

    open spec fn view(&self) -> GraphView {
        GraphView {
            root: self.root_index as int,
            nodes: self.nodes.deep_view(),
            edges: self.edges.deep_view(),
        }
    }
}

/// Both endpoints of `e` are node indices of `g`.
pub open spec fn edge_ok(g: GraphView, e: EdgeView) -> bool {
    0 <= e.from < g.nodes.len() && 0 <= e.to < g.nodes.len()
}

/// Every edge of `g` connects two node indices.
pub open spec fn edges_ok(g: GraphView) -> bool {
    forall|k: int| 0 <= k < g.edges.len() ==> edge_ok(g, #[trigger] g.edges[k])
}

/// There is an arc from node `u` to node `v`.
pub open spec fn has_edge(g: GraphView, u: int, v: int) -> bool {
    exists|k: int|
        0 <= k < g.edges.len() && (#[trigger] g.edges[k]).from == u && g.edges[k].to == v
}

/// A walk: a non-empty sequence of node indices joined by arcs.
pub open spec fn is_walk(g: GraphView, w: Seq<int>) -> bool {
    &&& w.len() >= 1
    &&& forall|i: int| 0 <= i < w.len() ==> 0 <= #[trigger] w[i] < g.nodes.len()
    &&& forall|i: int| 0 <= i < w.len() - 1 ==> has_edge(g, #[trigger] w[i], w[i + 1])
}

/// Node `v` can be reached from node `u` along arcs.
pub open spec fn reachable(g: GraphView, u: int, v: int) -> bool {
    exists|w: Seq<int>| is_walk(g, w) && w[0] == u && w[w.len() - 1] == v
}

/// Some non-trivial walk returns to its start.
pub open spec fn has_cycle(g: GraphView) -> bool {
    exists|w: Seq<int>| is_walk(g, w) && w.len() >= 2 && w[0] == w[w.len() - 1]
}

/// No two nodes carry the same package id.
pub open spec fn ids_distinct(g: GraphView) -> bool {
    forall|i: int, j: int|
        0 <= i < j < g.nodes.len() ==> (#[trigger] g.nodes[i]).id != (#[trigger] g.nodes[j]).id
}

/// No two nodes carry the same package name.
pub open spec fn names_distinct(g: GraphView) -> bool {
    forall|i: int, j: int|
        0 <= i < j < g.nodes.len() ==> (#[trigger] g.nodes[i]).id.name != (
        #[trigger] g.nodes[j]).id.name
}

/// Among the outgoing arcs of any node, aliases are unique.
pub open spec fn aliases_unique(g: GraphView) -> bool {
    forall|k: int, l: int|
        0 <= k < g.edges.len() && 0 <= l < g.edges.len() && k != l && (
        #[trigger] g.edges[k]).from == (#[trigger] g.edges[l]).from ==> g.edges[k].alias
            != g.edges[l].alias
}

/// Node `j` has an incoming arc from a node of smaller index.
pub open spec fn has_parent_edge(g: GraphView, j: int) -> bool {
    exists|k: int|
        0 <= k < g.edges.len() && (#[trigger] g.edges[k]).to == j && g.edges[k].from < j
}

/// The graph grew from its root by discovery: the root is node 0, and
/// every later node has an incoming arc from an earlier node.
pub open spec fn rooted(g: GraphView) -> bool {
    &&& g.nodes.len() > 0
    &&& g.root == 0
    &&& forall|j: int| 1 <= j < g.nodes.len() ==> #[trigger] has_parent_edge(g, j)
}

/// Structural well-formedness of a discovered graph.
pub open spec fn graph_wf(g: GraphView) -> bool {
    &&& edges_ok(g)
    &&& ids_distinct(g)
    &&& aliases_unique(g)
    &&& rooted(g)
}

/// Every node of a discovered graph is reachable from the root: the
/// graph holds exactly the dependency closure that discovery reached.
pub proof fn lemma_all_reachable(g: GraphView, v: int)
    requires
        edges_ok(g),
        rooted(g),
        0 <= v < g.nodes.len(),
    ensures
        reachable(g, g.root, v),
    decreases v,
{
    if v == 0 {
        let w = seq![0int];
        assert(is_walk(g, w));
        assert(reachable(g, g.root, v));
    } else {
        assert(has_parent_edge(g, v));
        let k = choose|k: int|
            0 <= k < g.edges.len() && (#[trigger] g.edges[k]).to == v && g.edges[k].from < v;
        let u = g.edges[k].from;
        lemma_all_reachable(g, u);
        let w = choose|w: Seq<int>| is_walk(g, w) && w[0] == g.root && w[w.len() - 1] == u;
        let w2 = w.push(v);
        assert forall|i: int| 0 <= i < w2.len() - 1 implies has_edge(
            g,
            #[trigger] w2[i],
            w2[i + 1],
        ) by {
            if i < w.len() - 1 {
                assert(w2[i] == w[i]);
                assert(w2[i + 1] == w[i + 1]);
            } else {
                assert(w2[i] == u);
                assert(w2[i + 1] == v);
                assert(has_edge(g, u, v));
            }
        }
        assert(is_walk(g, w2));
        assert(w2[0] == g.root && w2[w2.len() - 1] == v);
        assert(reachable(g, g.root, v));
    }
}

impl DependencyGraph {
    /// A graph from its parts.
    pub fn new(root_index: usize, nodes: Vec<Node>, edges: Vec<Edge>) -> (r: DependencyGraph)
        ensures
            r@.root == root_index as int,
            r@.nodes == nodes.deep_view(),
            r@.edges == edges.deep_view(),
    {
        DependencyGraph { root_index, nodes, edges }
    }

    /// The number of packages in the graph.
    pub fn node_count(&self) -> (r: usize)
        ensures
            r as int == self@.nodes.len(),
    {
        self.nodes.len()
    }

    /// The node at an index.
    pub fn node(&self, index: usize) -> (r: &Node)
        requires
            (index as int) < self@.nodes.len(),
        ensures
            r@ == self@.nodes[index as int],
    {
        proof {
            assert(self@.nodes[index as int] == self.nodes@[index as int]@);
        }
        &self.nodes[index]
    }

    /// The manifest of the root package.
    pub fn root_info(&self) -> (r: &PackageInfo)
        requires
            (self.root_index as int) < self@.nodes.len(),
        ensures
            r@ == self@.nodes[self@.root].pkg,
    {
        proof {
            assert(self@.nodes[self@.root] == self.nodes@[self.root_index as int]@);
        }
        &self.nodes[self.root_index].pkg
    }

    /// The outgoing arcs of node `u`, as alias and target pairs, in
    /// insertion order.
    pub fn edges_from(&self, u: usize) -> (r: Vec<(String, usize)>)
        ensures
            forall|i: int|
                0 <= i < r@.len() ==> arc_of(self@, u as int, (#[trigger] r@[i]).0@, r@[i].1 as int),
            forall|k: int|
                0 <= k < self@.edges.len() && (#[trigger] self@.edges[k]).from == u as int
                    ==> arc_listed(r@, self@.edges[k].alias, self@.edges[k].to),
    {
        let mut r: Vec<(String, usize)> = Vec::new();
        let mut k: usize = 0;
        while k < self.edges.len()
            invariant
                k <= self.edges@.len(),
                forall|i: int|
                    0 <= i < r@.len() ==> arc_of(
                        self@,
                        u as int,
                        (#[trigger] r@[i]).0@,
                        r@[i].1 as int,
                    ),
                forall|m: int|
                    0 <= m < k && (#[trigger] self@.edges[m]).from == u as int ==> arc_listed(
                        r@,
                        self@.edges[m].alias,
                        self@.edges[m].to,
                    ),
            decreases self.edges@.len() - k,
        {
            proof {
                assert(self@.edges[k as int] == self.edges@[k as int]@);
            }
            if self.edges[k].from == u {
                let alias = self.edges[k].alias.clone();
                let to = self.edges[k].to;
                let ghost av = alias@;
                let ghost prevr = r@;
                r.push((alias, to));
                proof {
                    assert(r@[r@.len() - 1].0@ == av);
                    assert(r@[r@.len() - 1].1 == to);
                    assert(arc_of(self@, u as int, av, to as int));
                    assert forall|i: int| 0 <= i < r@.len() implies arc_of(
                        self@,
                        u as int,
                        (#[trigger] r@[i]).0@,
                        r@[i].1 as int,
                    ) by {
                        if i < r@.len() - 1 {
                            assert(r@[i] == prevr[i]);
                        }
                    }
                    assert forall|m: int|
                        0 <= m < k + 1 && (#[trigger] self@.edges[m]).from == u as int
                        implies arc_listed(r@, self@.edges[m].alias, self@.edges[m].to) by {
                        if m < k as int {
                            let i = choose|i: int|
                                0 <= i < prevr.len() && (#[trigger] prevr[i]).0@ == self@.edges[
                                m].alias && prevr[i].1 as int == self@.edges[m].to;
                            assert(r@[i] == prevr[i]);
                            assert(arc_listed(r@, self@.edges[m].alias, self@.edges[m].to));
                        } else {
                            assert(r@[r@.len() - 1].0@ == self@.edges[m].alias);
                        }
                    }
                }
            } else {
                proof {
                    assert forall|m: int|
                        0 <= m < k + 1 && (#[trigger] self@.edges[m]).from == u as int
                        implies arc_listed(r@, self@.edges[m].alias, self@.edges[m].to) by {}
                }
            }
            k = k + 1;
        }
        r
    }
}

/// `g` has an arc from `u` with this alias and target.
pub open spec fn arc_of(g: GraphView, u: int, alias: Seq<char>, to: int) -> bool {
    exists|k: int|
        0 <= k < g.edges.len() && (#[trigger] g.edges[k]).from == u && g.edges[k].alias
            == alias && g.edges[k].to == to
}

/// The listing holds an entry with this alias and target.
pub open spec fn arc_listed(rs: Seq<(String, usize)>, alias: Seq<char>, to: int) -> bool {
    exists|i: int|
        0 <= i < rs.len() && (#[trigger] rs[i]).0@ == alias && rs[i].1 as int == to
}

} // verus!
// The module continues: topological sorting and cycle extraction.

use vstd::set_lib::{set_int_range, lemma_int_range, lemma_len_subset};

verus! {

/// `u` occurs among the first `j` entries of `ord`.
pub open spec fn in_prefix(ord: Seq<usize>, j: int, u: int) -> bool {
    exists|m: int| 0 <= m < j && (#[trigger] ord[m]) as int == u
}

/// Every arc into `u` starts among the first `j` entries of `ord`.
pub open spec fn preds_done(g: GraphView, ord: Seq<usize>, j: int, u: int) -> bool {
    forall|k: int|
        0 <= k < g.edges.len() && (#[trigger] g.edges[k]).to == u ==> in_prefix(
            ord,
            j,
            g.edges[k].from,
        )
}

/// Every arc into `u` starts at a node whose flag is set.
pub open spec fn preds_flagged(g: GraphView, done: Seq<bool>, u: int) -> bool {
    forall|k: int|
        0 <= k < g.edges.len() && (#[trigger] g.edges[k]).to == u ==> done[g.edges[k].from]
}

/// `ord` is the topological order that repeatedly takes the
/// largest-index node whose predecessors are all placed: a permutation
/// of the nodes in which every node follows its predecessors, and at
/// each step no larger node was available.
pub open spec fn topo_pinned(g: GraphView, ord: Seq<usize>) -> bool {
    &&& ord.len() == g.nodes.len()
    &&& forall|j: int| 0 <= j < ord.len() ==> ((#[trigger] ord[j]) as int) < g.nodes.len()
    &&& forall|i: int, j: int| 0 <= i < j < ord.len() ==> ord[i] != ord[j]
    &&& forall|j: int|
        0 <= j < ord.len() ==> preds_done(g, ord, j, ((#[trigger] ord[j]) as int))
    &&& forall|j: int, u: int|
        #![trigger ord[j], preds_done(g, ord, j, u)]
        0 <= j < ord.len() && ((ord[j] as int) < u < g.nodes.len()) && preds_done(g, ord, j, u)
            ==> in_prefix(ord, j, u)
}

/// A closed walk: at least one arc, consecutive entries joined by arcs,
/// first and last entry equal.
pub open spec fn closed_walk(g: GraphView, c: Seq<usize>) -> bool {
    &&& c.len() >= 2
    &&& c[0] == c[c.len() - 1]
    &&& forall|i: int| 0 <= i < c.len() ==> ((#[trigger] c[i]) as int) < g.nodes.len()
    &&& forall|i: int|
        0 <= i < c.len() - 1 ==> has_edge(g, ((#[trigger] c[i]) as int), c[i + 1] as int)
}

/// A sequence of distinct values below `n` has at most `n` entries.
proof fn lemma_distinct_len(s: Seq<usize>, n: int)
    requires
        forall|i: int, j: int| 0 <= i < j < s.len() ==> s[i] != s[j],
        forall|j: int| 0 <= j < s.len() ==> ((#[trigger] s[j]) as int) < n,
        0 <= n,
    ensures
        s.len() <= n,
{
    broadcast use vstd::seq_lib::group_seq_lib_default, vstd::set::group_set_axioms;

    let m = s.map_values(|v: usize| v as int);
    assert(m.no_duplicates()) by {
        assert forall|i: int, j: int|
            0 <= i < m.len() && 0 <= j < m.len() && i != j implies m[i] != m[j] by {
            if i < j {
                assert(s[i] != s[j]);
            } else {
                assert(s[j] != s[i]);
            }
        }
    }
    m.unique_seq_to_set();
    let rng = set_int_range(0, n);
    lemma_int_range(0, n);
    assert(m.to_set().subset_of(rng)) by {
        assert forall|x: int| m.to_set().contains(x) implies rng.contains(x) by {
            let i = choose|i: int| 0 <= i < m.len() && m[i] == x;
            assert(s[i] as int == x);
        }
    }
    lemma_len_subset(m.to_set(), rng);
}

/// A sequence of `n` distinct values below `n` holds every value
/// below `n`.
pub proof fn lemma_distinct_full(s: Seq<usize>, n: int, v: int)
    requires
        forall|i: int, j: int| 0 <= i < j < s.len() ==> s[i] != s[j],
        forall|j: int| 0 <= j < s.len() ==> ((#[trigger] s[j]) as int) < n,
        s.len() == n,
        0 <= v < n,
    ensures
        in_prefix(s, n, v),
{
    broadcast use vstd::seq_lib::group_seq_lib_default, vstd::set::group_set_axioms;

    if !in_prefix(s, n, v) {
        let m = s.map_values(|x: usize| x as int);
        assert(m.no_duplicates()) by {
            assert forall|i: int, j: int|
                0 <= i < m.len() && 0 <= j < m.len() && i != j implies m[i] != m[j] by {
                if i < j {
                    assert(s[i] != s[j]);
                } else {
                    assert(s[j] != s[i]);
                }
            }
        }
        m.unique_seq_to_set();
        let rng = set_int_range(0, n).remove(v);
        lemma_int_range(0, n);
        assert(set_int_range(0, n).contains(v));
        assert(rng.len() == n - 1);
        assert(m.to_set().subset_of(rng)) by {
            assert forall|x: int| m.to_set().contains(x) implies rng.contains(x) by {
                let i = choose|i: int| 0 <= i < m.len() && m[i] == x;
                assert(s[i] as int == x);
                assert(x != v) by {
                    if x == v {
                        assert(s[i] as int == v);
                        assert(in_prefix(s, n, v));
                    }
                }
            }
        }
        lemma_len_subset(m.to_set(), rng);
        assert(false);
    }
}

/// A closed walk witnesses a cycle.
pub proof fn lemma_closed_walk_cycle(g: GraphView, c: Seq<usize>)
    requires
        closed_walk(g, c),
    ensures
        has_cycle(g),
{
    let w = c.map_values(|v: usize| v as int);
    assert(is_walk(g, w)) by {
        assert forall|i: int| 0 <= i < w.len() implies 0 <= #[trigger] w[i] < g.nodes.len() by {
            assert(w[i] == c[i] as int);
        }
        assert forall|i: int| 0 <= i < w.len() - 1 implies has_edge(
            g,
            #[trigger] w[i],
            w[i + 1],
        ) by {
            assert(w[i] == c[i] as int);
            assert(w[i + 1] == c[i + 1] as int);
        }
    }
    assert(w.len() >= 2 && w[0] == w[w.len() - 1]);
}

/// The position of node `v` in the order `ord`.
pub open spec fn pos_in(ord: Seq<usize>, v: int) -> int {
    choose|m: int| 0 <= m < ord.len() && (#[trigger] ord[m]) as int == v
}

/// In a pinned topological order, positions strictly increase along any
/// walk.
pub proof fn lemma_walk_pos(g: GraphView, ord: Seq<usize>, w: Seq<int>, i: int)
    requires
        edges_ok(g),
        topo_pinned(g, ord),
        is_walk(g, w),
        0 <= i < w.len(),
    ensures
        0 <= pos_in(ord, w[i]) < ord.len(),
        ord[pos_in(ord, w[i])] as int == w[i],
        pos_in(ord, w[i]) >= pos_in(ord, w[0]) + i,
    decreases i,
{
    lemma_distinct_full(ord, g.nodes.len() as int, w[i]);
    let mi = choose|m: int| 0 <= m < ord.len() && (#[trigger] ord[m]) as int == w[i];
    assert(0 <= pos_in(ord, w[i]) < ord.len() && ord[pos_in(ord, w[i])] as int == w[i]);
    if i > 0 {
        lemma_walk_pos(g, ord, w, i - 1);
        let pprev = pos_in(ord, w[i - 1]);
        let pcur = pos_in(ord, w[i]);
        assert(has_edge(g, w[i - 1], w[i]));
        let k = choose|k: int|
            0 <= k < g.edges.len() && (#[trigger] g.edges[k]).from == w[i - 1] && g.edges[k].to
                == w[i];
        assert(preds_done(g, ord, pcur, ord[pcur] as int));
        assert(in_prefix(ord, pcur, g.edges[k].from));
        let m = choose|m: int| 0 <= m < pcur && (#[trigger] ord[m]) as int == w[i - 1];
        assert(m == pprev) by {
            if m != pprev {
                if m < pprev {
                    assert(ord[m] != ord[pprev]);
                } else {
                    assert(ord[pprev] != ord[m]);
                }
            }
        }
        assert(pprev < pcur);
    }
}

/// A graph with a pinned topological order has no cycle.
pub proof fn lemma_topo_pinned_acyclic(g: GraphView, ord: Seq<usize>)
    requires
        edges_ok(g),
        topo_pinned(g, ord),
    ensures
        !has_cycle(g),
{
    if has_cycle(g) {
        let w = choose|w: Seq<int>| is_walk(g, w) && w.len() >= 2 && w[0] == w[w.len() - 1];
        lemma_walk_pos(g, ord, w, w.len() - 1);
        assert(pos_in(ord, w[w.len() - 1]) >= pos_in(ord, w[0]) + w.len() - 1);
        assert(false);
    }
}

/// Whether every predecessor of `v` carries a set flag.
fn preds_done_exec(g: &DependencyGraph, done: &Vec<bool>, v: usize) -> (r: bool)
    requires
        edges_ok(g@),
        done@.len() == g@.nodes.len(),
    ensures
        r == preds_flagged(g@, done@, v as int),
{
    let mut k: usize = 0;
    while k < g.edges.len()
        invariant
            edges_ok(g@),
            done@.len() == g@.nodes.len(),
            k <= g.edges@.len(),
            forall|m: int|
                0 <= m < k && (#[trigger] g@.edges[m]).to == v as int ==> done@[g@.edges[
                m].from],
        decreases g.edges@.len() - k,
    {
        proof {
            assert(g@.edges[k as int] == g.edges@[k as int]@);
        }
        if g.edges[k].to == v {
            if !done[g.edges[k].from] {
                return false;
            }
        }
        k = k + 1;
    }
    true
}

/// The largest-index node that is not yet placed and whose
/// predecessors all are, if any.
fn find_ready(g: &DependencyGraph, done: &Vec<bool>) -> (r: Option<usize>)
    requires
        edges_ok(g@),
        done@.len() == g@.nodes.len(),
    ensures
        match r {
            Some(v) => {
                &&& (v as int) < g@.nodes.len()
                &&& !done@[v as int]
                &&& preds_flagged(g@, done@, v as int)
                &&& forall|u: int|
                    (v as int) < u < g@.nodes.len() ==> done@[u] || !preds_flagged(g@, done@, u)
            },
            None => forall|u: int|
                0 <= u < g@.nodes.len() ==> done@[u] || !preds_flagged(g@, done@, u),
        },
{
    let mut v: usize = g.nodes.len();
    while v > 0
        invariant
            edges_ok(g@),
            done@.len() == g@.nodes.len(),
            v <= g@.nodes.len(),
            forall|u: int|
                (v as int) <= u < g@.nodes.len() ==> done@[u] || !preds_flagged(g@, done@, u),
        decreases v,
    {
        v = v - 1;
        if !done[v] {
            if preds_done_exec(g, done, v) {
                return Some(v);
            }
        }
    }
    None
}

/// The smallest index whose flag is unset.
fn find_undone(done: &Vec<bool>) -> (r: usize)
    requires
        exists|w: int| 0 <= w < done@.len() && !done@[w],
    ensures
        (r as int) < done@.len(),
        !done@[r as int],
{
    let mut w: usize = 0;
    while w < done.len()
        invariant
            w <= done@.len(),
            forall|u: int| 0 <= u < w ==> done@[u],
        decreases done@.len() - w,
    {
        if !done[w] {
            return w;
        }
        w = w + 1;
    }
    proof {
        assert(false);
    }
    unreached()
}

/// A predecessor of `cur` whose flag is unset.
fn find_pred(g: &DependencyGraph, done: &Vec<bool>, cur: usize) -> (r: usize)
    requires
        edges_ok(g@),
        done@.len() == g@.nodes.len(),
        (cur as int) < g@.nodes.len(),
        !done@[cur as int],
        forall|u: int|
            0 <= u < g@.nodes.len() ==> done@[u] || !preds_flagged(g@, done@, u),
    ensures
        (r as int) < g@.nodes.len(),
        !done@[r as int],
        has_edge(g@, r as int, cur as int),
{
    let mut k: usize = 0;
    while k < g.edges.len()
        invariant
            edges_ok(g@),
            done@.len() == g@.nodes.len(),
            k <= g.edges@.len(),
            forall|m: int|
                0 <= m < k && (#[trigger] g@.edges[m]).to == cur as int ==> done@[g@.edges[
                m].from],
        decreases g.edges@.len() - k,
    {
        proof {
            assert(g@.edges[k as int] == g.edges@[k as int]@);
        }
        if g.edges[k].to == cur {
            if !done[g.edges[k].from] {
                proof {
                    assert(has_edge(g@, g@.edges[k as int].from, cur as int));
                }
                return g.edges[k].from;
            }
        }
        k = k + 1;
    }
    proof {
        assert(preds_flagged(g@, done@, cur as int));
        assert(false);
    }
    unreached()
}

} // verus!
// The module continues: the sort and the extraction.

verus! {

/// The first position of `p` in `path`.
fn find_position(path: &Vec<usize>, p: usize) -> (q: usize)
    requires
        exists|m: int| 0 <= m < path@.len() && (#[trigger] path@[m]) == p,
    ensures
        (q as int) < path@.len(),
        path@[q as int] == p,
        forall|m: int| 0 <= m < q ==> path@[m] != p,
{
    let mut q: usize = 0;
    while q < path.len()
        invariant
            q <= path@.len(),
            forall|m: int| 0 <= m < q ==> path@[m] != p,
        decreases path@.len() - q,
    {
        if path[q] == p {
            return q;
        }
        q = q + 1;
    }
    proof {
        let m = choose|m: int| 0 <= m < path@.len() && (#[trigger] path@[m]) == p;
        assert(false);
    }
    unreached()
}

/// Extracts a closed walk from the unflagged nodes, every one of which
/// has an unflagged predecessor. The walk starts and ends at its
/// smallest member.
#[verifier::rlimit(100)]
#[verifier::spinoff_prover]
fn extract_cycle(g: &DependencyGraph, done: &Vec<bool>) -> (c: Vec<usize>)
    requires
        edges_ok(g@),
        done@.len() == g@.nodes.len(),
        exists|w: int| 0 <= w < g@.nodes.len() && !done@[w],
        forall|u: int|
            0 <= u < g@.nodes.len() ==> done@[u] || !preds_flagged(g@, done@, u),
    ensures
        closed_walk(g@, c@),
        forall|i: int| 0 <= i < c@.len() ==> c@[0] <= #[trigger] c@[i],
        forall|x: int, y: int| 0 <= x < y < c@.len() - 1 ==> c@[x] != c@[y],
{
    let n = g.nodes.len();
    let start = find_undone(done);
    let mut path: Vec<usize> = Vec::new();
    path.push(start);
    let mut inpath: Vec<bool> = Vec::new();
    let mut w: usize = 0;
    while w < n
        invariant
            w <= n,
            inpath@.len() == w as int,
            forall|u: int| 0 <= u < w ==> !(#[trigger] inpath@[u]),
        decreases n - w,
    {
        inpath.push(false);
        w = w + 1;
    }
    inpath.set(start, true);
    proof {
        assert forall|u: int| 0 <= u < n implies (#[trigger] inpath@[u] == in_prefix(
            path@,
            path@.len() as int,
            u,
        )) by {
            if u == start as int {
                assert(path@[0] as int == u);
            } else {
                if in_prefix(path@, path@.len() as int, u) {
                    let m = choose|m: int|
                        0 <= m < path@.len() && (#[trigger] path@[m]) as int == u;
                    assert(false);
                }
            }
        }
    }
    loop
        invariant
            path@.len() <= n,
            edges_ok(g@),
            done@.len() == g@.nodes.len(),
            n == g@.nodes.len(),
            inpath@.len() == n as int,
            path@.len() >= 1,
            forall|u: int|
                0 <= u < g@.nodes.len() ==> done@[u] || !preds_flagged(g@, done@, u),
            forall|i: int| 0 <= i < path@.len() ==> ((#[trigger] path@[i]) as int) < n,
            forall|i: int| 0 <= i < path@.len() ==> !done@[(#[trigger] path@[i]) as int],
            forall|i: int, j: int| 0 <= i < j < path@.len() ==> path@[i] != path@[j],
            forall|u: int|
                0 <= u < n ==> (#[trigger] inpath@[u] == in_prefix(path@, path@.len() as int, u)),
            forall|i: int|
                0 <= i < path@.len() - 1 ==> has_edge(
                    g@,
                    (#[trigger] path@[i + 1]) as int,
                    path@[i] as int,
                ),
        decreases n - path@.len(),
    {
        proof {
            lemma_distinct_len(path@, n as int);
        }
        let cur = path[path.len() - 1];
        let p = find_pred(g, done, cur);
        if inpath[p] {
            // The walk closed: locate the earlier occurrence of `p`.
            proof {
                assert(in_prefix(path@, path@.len() as int, p as int));
                let m = choose|m: int|
                    0 <= m < path@.len() && (#[trigger] path@[m]) as int == p as int;
                assert(path@[m] == p);
            }
            let q = find_position(&path, p);
            // Reverse the segment from `q` to the end: a forward cycle.
            let mut f: Vec<usize> = Vec::new();
            let mut idx: usize = path.len();
            while idx > q
                invariant
                    q < path@.len(),
                    q <= idx <= path@.len(),
                    f@.len() == path@.len() - idx,
                    forall|j: int|
                        0 <= j < f@.len() ==> (#[trigger] f@[j]) == path@[path@.len() - 1 - j],
                decreases idx,
            {
                idx = idx - 1;
                f.push(path[idx]);
            }
            let ghost pathv = path@;
            let ghost fl = f@.len() as int;
            proof {
                assert(fl >= 1);
                assert(f@[0] == pathv[pathv.len() - 1]);
                assert(f@[fl - 1] == pathv[q as int]);
                assert forall|j: int| 0 <= j < fl - 1 implies has_edge(
                    g@,
                    (#[trigger] f@[j]) as int,
                    f@[j + 1] as int,
                ) by {
                    let ii = pathv.len() - 2 - j;
                    assert(f@[j] == pathv[ii + 1]);
                    assert(f@[j + 1] == pathv[ii]);
                    assert(has_edge(g@, (#[trigger] pathv[ii + 1]) as int, pathv[ii] as int));
                }
                assert(has_edge(g@, f@[fl - 1] as int, f@[0] as int));
                assert forall|j: int| 0 <= j < fl implies ((#[trigger] f@[j]) as int)
                    < n by {
                    assert(f@[j] == pathv[pathv.len() - 1 - j]);
                }
                // The path is duplicate-free, so the reversed segment is too.
                assert forall|x: int, y: int| 0 <= x < y < fl implies f@[x] != f@[y] by {
                    assert(f@[x] == pathv[pathv.len() - 1 - x]);
                    assert(f@[y] == pathv[pathv.len() - 1 - y]);
                    assert(pathv[pathv.len() - 1 - y] != pathv[pathv.len() - 1 - x]);
                }
            }
            // Rotate so the smallest member leads, and close the loop.
            let mut m0: usize = 0;
            let mut j: usize = 1;
            while j < f.len()
                invariant
                    f@.len() >= 1,
                    (m0 as int) < f@.len(),
                    j <= f@.len(),
                    forall|i: int| 0 <= i < j ==> f@[m0 as int] <= #[trigger] f@[i],
                decreases f@.len() - j,
            {
                if f[j] < f[m0] {
                    m0 = j;
                }
                j = j + 1;
            }
            let mut c: Vec<usize> = Vec::new();
            let mut j: usize = m0;
            while j < f.len()
                invariant
                    (m0 as int) < f@.len(),
                    m0 <= j <= f@.len(),
                    c@.len() == j - m0,
                    forall|i: int| 0 <= i < c@.len() ==> (#[trigger] c@[i]) == f@[m0 + i],
                decreases f@.len() - j,
            {
                c.push(f[j]);
                j = j + 1;
            }
            let mut j: usize = 0;
            while j < m0
                invariant
                    (m0 as int) < f@.len(),
                    j <= m0,
                    c@.len() == f@.len() - m0 + j,
                    forall|i: int|
                        0 <= i < f@.len() - m0 ==> (#[trigger] c@[i]) == f@[m0 + i],
                    forall|i: int|
                        f@.len() - m0 <= i < c@.len() ==> (#[trigger] c@[i]) == f@[i - (
                        f@.len() - m0)],
                decreases m0 - j,
            {
                c.push(f[j]);
                j = j + 1;
            }
            c.push(f[m0]);
            proof {
                let cv = c@;
                let l = fl;
                let k0 = m0 as int;
                assert(cv.len() == l + 1);
                assert(cv[0] == f@[k0]);
                assert(cv[cv.len() - 1] == f@[k0]);
                assert forall|i: int| 0 <= i < cv.len() - 1 implies has_edge(
                    g@,
                    (#[trigger] cv[i]) as int,
                    cv[i + 1] as int,
                ) by {
                    if i + 1 < l - k0 {
                        assert(cv[i] == f@[k0 + i]);
                        assert(cv[i + 1] == f@[k0 + i + 1]);
                    } else if i + 1 == l - k0 {
                        assert(cv[i] == f@[l - 1]);
                        if i + 1 < l {
                            assert(cv[i + 1] == f@[0]);
                        } else {
                            assert(cv[i + 1] == f@[k0]);
                            assert(k0 == 0);
                        }
                    } else if i + 1 < l {
                        assert(cv[i] == f@[i - (l - k0)]);
                        assert(cv[i + 1] == f@[i + 1 - (l - k0)]);
                    } else {
                        assert(i == l - 1);
                        assert(cv[i] == f@[k0 - 1]);
                        assert(cv[i + 1] == f@[k0]);
                    }
                }
                assert forall|i: int| 0 <= i < cv.len() implies cv[0] <= #[trigger] cv[i] by {
                    if i < l - k0 {
                        assert(cv[i] == f@[k0 + i]);
                    } else if i < l {
                        assert(cv[i] == f@[i - (l - k0)]);
                    } else {
                        assert(cv[i] == f@[k0]);
                    }
                }
                assert forall|i: int| 0 <= i < cv.len() implies ((#[trigger] cv[i]) as int)
                    < g@.nodes.len() by {
                    if i < l - k0 {
                        assert(cv[i] == f@[k0 + i]);
                    } else if i < l {
                        assert(cv[i] == f@[i - (l - k0)]);
                    } else {
                        assert(cv[i] == f@[k0]);
                    }
                }
                // The rotation is a permutation of the duplicate-free
                // segment, so the loop's interior repeats nothing.
                assert forall|x: int, y: int| 0 <= x < y < cv.len() - 1 implies cv[x]
                    != cv[y] by {
                    let fx = if x < l - k0 {
                        k0 + x
                    } else {
                        x - (l - k0)
                    };
                    let fy = if y < l - k0 {
                        k0 + y
                    } else {
                        y - (l - k0)
                    };
                    assert(cv[x] == f@[fx]);
                    assert(cv[y] == f@[fy]);
                    assert(fx != fy);
                    if fx < fy {
                        assert(f@[fx] != f@[fy]);
                    } else {
                        assert(f@[fy] != f@[fx]);
                    }
                }
                assert(closed_walk(g@, cv));
            }
            return c;
        }
        let ghost prevp = path@;
        path.push(p);
        inpath.set(p, true);
        proof {
            assert forall|u: int| 0 <= u < n implies (#[trigger] inpath@[u] == in_prefix(
                path@,
                path@.len() as int,
                u,
            )) by {
                if u == p as int {
                    assert(path@[path@.len() - 1] as int == u);
                } else {
                    if in_prefix(path@, path@.len() as int, u) {
                        let m = choose|m: int|
                            0 <= m < path@.len() && (#[trigger] path@[m]) as int == u;
                        assert(m < prevp.len());
                        assert(prevp[m] as int == u);
                        assert(in_prefix(prevp, prevp.len() as int, u));
                    }
                    if in_prefix(prevp, prevp.len() as int, u) {
                        let m = choose|m: int|
                            0 <= m < prevp.len() && (#[trigger] prevp[m]) as int == u;
                        assert(path@[m] as int == u);
                        assert(in_prefix(path@, path@.len() as int, u));
                    }
                }
            }
            assert forall|i: int, j: int| 0 <= i < j < path@.len() implies path@[i]
                != path@[j] by {
                if j == path@.len() - 1 {
                    if path@[i] == path@[j] {
                        assert(in_prefix(prevp, prevp.len() as int, p as int));
                    }
                }
            }
            assert forall|i: int| 0 <= i < path@.len() - 1 implies has_edge(
                g@,
                (#[trigger] path@[i + 1]) as int,
                path@[i] as int,
            ) by {
                if i < path@.len() - 2 {
                    assert(path@[i] == prevp[i]);
                    assert(path@[i + 1] == prevp[i + 1]);
                } else {
                    assert(path@[i] == prevp[prevp.len() - 1]);
                    assert(path@[i + 1] as int == p as int);
                }
            }
            lemma_distinct_len(path@, n as int);
        }
    }
}

/// The deterministic topological sort: repeatedly places the
/// largest-index node whose predecessors are all placed. On a cyclic
/// graph it returns a closed walk instead, led by its smallest member.
pub fn toposort(g: &DependencyGraph) -> (r: Result<Vec<usize>, Vec<usize>>)
    requires
        edges_ok(g@),
    ensures
        match r {
            Ok(ord) => topo_pinned(g@, ord@),
            Err(c) => closed_walk(g@, c@) && (forall|i: int|
                0 <= i < c@.len() ==> c@[0] <= #[trigger] c@[i]) && (forall|x: int, y: int|
                0 <= x < y < c@.len() - 1 ==> c@[x] != c@[y]),
        },
{
    let n = g.nodes.len();
    let mut done: Vec<bool> = Vec::new();
    let mut w: usize = 0;
    while w < n
        invariant
            w <= n,
            done@.len() == w as int,
            forall|u: int| 0 <= u < w ==> !(#[trigger] done@[u]),
        decreases n - w,
    {
        done.push(false);
        w = w + 1;
    }
    let mut ord: Vec<usize> = Vec::new();
    proof {
        assert(n == g@.nodes.len());
    }
    while ord.len() < n
        invariant
            edges_ok(g@),
            n == g@.nodes.len(),
            done@.len() == n as int,
            ord@.len() <= n,
            forall|u: int|
                0 <= u < n ==> (#[trigger] done@[u] == in_prefix(ord@, ord@.len() as int, u)),
            forall|j: int| 0 <= j < ord@.len() ==> ((#[trigger] ord@[j]) as int) < n,
            forall|i: int, j: int| 0 <= i < j < ord@.len() ==> ord@[i] != ord@[j],
            forall|j: int|
                0 <= j < ord@.len() ==> preds_done(g@, ord@, j, ((#[trigger] ord@[j]) as int)),
            forall|j: int, u: int|
                #![trigger ord@[j], preds_done(g@, ord@, j, u)]
                0 <= j < ord@.len() && ((ord@[j] as int) < u < n) && preds_done(g@, ord@, j, u)
                    ==> in_prefix(ord@, j, u),
        decreases n - ord.len(),
    {
        match find_ready(g, &done) {
            Some(v) => {
                let ghost prevo = ord@;
                let ghost prevd = done@;
                done.set(v, true);
                ord.push(v);
                proof {
                    let l = prevo.len() as int;
                    assert(ord@.len() == l + 1);
                    assert(ord@[l] == v);
                    assert forall|x: int| 0 <= x < n implies in_prefix(ord@, l, x)
                        == in_prefix(prevo, l, x) by {
                        if in_prefix(ord@, l, x) {
                            let m = choose|m: int|
                                0 <= m < l && (#[trigger] ord@[m]) as int == x;
                            assert(prevo[m] as int == x);
                        }
                        if in_prefix(prevo, l, x) {
                            let m = choose|m: int|
                                0 <= m < l && (#[trigger] prevo[m]) as int == x;
                            assert(ord@[m] as int == x);
                        }
                    }
                    assert forall|j: int, x: int|
                        0 <= j < l && 0 <= x < n implies #[trigger] in_prefix(ord@, j, x)
                        == in_prefix(prevo, j, x) by {
                        if in_prefix(ord@, j, x) {
                            let m = choose|m: int|
                                0 <= m < j && (#[trigger] ord@[m]) as int == x;
                            assert(prevo[m] as int == x);
                            assert(in_prefix(prevo, j, x));
                        }
                        if in_prefix(prevo, j, x) {
                            let m = choose|m: int|
                                0 <= m < j && (#[trigger] prevo[m]) as int == x;
                            assert(ord@[m] as int == x);
                            assert(in_prefix(ord@, j, x));
                        }
                    }
                    assert forall|u: int| 0 <= u < n implies (#[trigger] done@[u]
                        == in_prefix(ord@, ord@.len() as int, u)) by {
                        if u == v as int {
                            assert(done@[u]);
                            assert(ord@[l] as int == u);
                        } else {
                            assert(done@[u] == prevd[u]);
                            if in_prefix(ord@, l + 1, u) {
                                let m = choose|m: int|
                                    0 <= m < l + 1 && (#[trigger] ord@[m]) as int == u;
                                assert(m < l);
                                assert(in_prefix(ord@, l, u));
                            }
                            if in_prefix(ord@, l, u) {
                                assert(in_prefix(ord@, l + 1, u));
                            }
                        }
                    }
                    assert forall|i: int, j: int| 0 <= i < j < ord@.len() implies ord@[i]
                        != ord@[j] by {
                        if j == l {
                            if ord@[i] == ord@[j] {
                                assert(prevo[i] as int == v as int);
                                assert(in_prefix(prevo, l, v as int));
                                assert(prevd[v as int]);
                            }
                        }
                    }
                    assert forall|j: int| 0 <= j < ord@.len() implies preds_done(
                        g@,
                        ord@,
                        j,
                        ((#[trigger] ord@[j]) as int),
                    ) by {
                        if j < l {
                            assert(preds_done(g@, prevo, j, prevo[j] as int));
                            assert forall|k: int|
                                0 <= k < g@.edges.len() && (#[trigger] g@.edges[k]).to == ord@[
                                j] as int implies in_prefix(ord@, j, g@.edges[k].from) by {
                                assert(in_prefix(prevo, j, g@.edges[k].from));
                            }
                        } else {
                            assert(preds_flagged(g@, prevd, v as int));
                            assert forall|k: int|
                                0 <= k < g@.edges.len() && (#[trigger] g@.edges[k]).to
                                    == v as int implies in_prefix(ord@, l, g@.edges[k].from) by {
                                assert(prevd[g@.edges[k].from]);
                                assert(in_prefix(prevo, l, g@.edges[k].from));
                            }
                        }
                    }
                    assert forall|j: int, u: int|
                        #![trigger ord@[j], preds_done(g@, ord@, j, u)]
                        0 <= j < ord@.len() && ((ord@[j] as int) < u < n) && preds_done(
                            g@,
                            ord@,
                            j,
                            u,
                        ) implies in_prefix(ord@, j, u) by {
                        if j < l {
                            assert(preds_done(g@, prevo, j, u)) by {
                                assert forall|k: int|
                                    0 <= k < g@.edges.len() && (#[trigger] g@.edges[k]).to
                                        == u implies in_prefix(prevo, j, g@.edges[k].from) by {
                                    assert(in_prefix(ord@, j, g@.edges[k].from));
                                }
                            }
                            assert(in_prefix(prevo, j, u));
                        } else {
                            assert(preds_flagged(g@, prevd, u)) by {
                                assert forall|k: int|
                                    0 <= k < g@.edges.len() && (#[trigger] g@.edges[k]).to
                                        == u implies prevd[g@.edges[k].from] by {
                                    assert(in_prefix(ord@, l, g@.edges[k].from));
                                    assert(in_prefix(prevo, l, g@.edges[k].from));
                                }
                            }
                            assert(prevd[u] || !preds_flagged(g@, prevd, u));
                            assert(prevd[u]);
                            assert(in_prefix(prevo, l, u));
                            assert(in_prefix(ord@, l, u));
                        }
                    }
                }
            },
            None => {
                proof {
                    lemma_distinct_len(ord@, n as int);
                    if forall|w: int| 0 <= w < n ==> #[trigger] done@[w] {
                        assert forall|w: int| 0 <= w < n implies in_prefix(
                            ord@,
                            ord@.len() as int,
                            w,
                        ) by {
                            assert(done@[w]);
                        }
                        let s = ord@;
                        let m = s.map_values(|v: usize| v as int);
                        assert(m.no_duplicates()) by {
                            assert forall|i: int, j: int|
                                0 <= i < m.len() && 0 <= j < m.len() && i != j implies m[i]
                                != m[j] by {
                                if i < j {
                                    assert(s[i] != s[j]);
                                } else {
                                    assert(s[j] != s[i]);
                                }
                            }
                        }
                        broadcast use vstd::seq_lib::group_seq_lib_default,
                            vstd::set::group_set_axioms;

                        m.unique_seq_to_set();
                        let rng = set_int_range(0, n as int);
                        lemma_int_range(0, n as int);
                        assert(rng.subset_of(m.to_set())) by {
                            assert forall|x: int| rng.contains(x) implies m.to_set().contains(
                                x,
                            ) by {
                                assert(in_prefix(s, s.len() as int, x));
                                let mm = choose|mm: int|
                                    0 <= mm < s.len() && (#[trigger] s[mm]) as int == x;
                                assert(m[mm] == x);
                            }
                        }
                        lemma_len_subset(rng, m.to_set());
                        assert(false);
                    }
                }
                let c = extract_cycle(g, &done);
                return Err(c);
            },
        }
    }
    Ok(ord)
}

} // verus!
