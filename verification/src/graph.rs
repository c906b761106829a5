use petgraph::graph::NodeIndex;
use vstd::prelude::*;

verus! {

/// `petgraph::Directed`: the mark of a graph whose edges have a direction.
#[verifier::external_type_specification]
#[verifier::external_body]
pub struct ExDirected(petgraph::Directed);

/// `petgraph::graph::Graph`: a graph, known only through its nodes and
/// edges as `graph_nodes` and `graph_edges` name them.
#[verifier::external_type_specification]
#[verifier::external_body]
#[verifier::reject_recursive_types(N)]
#[verifier::reject_recursive_types(E)]
#[verifier::reject_recursive_types(Ty)]
#[verifier::reject_recursive_types(Ix)]
pub struct ExGraph<N, E, Ty, Ix>(petgraph::graph::Graph<N, E, Ty, Ix>);

/// The weights of the nodes of a graph, by node index.
pub uninterp spec fn graph_nodes(g: petgraph::graph::Graph<u32, (), petgraph::Directed, u32>) -> Seq<u32>;

/// The edges of a graph, each as the indices of the node it leaves and of
/// the node it enters, in the order in which they were added.
pub uninterp spec fn graph_edges(g: petgraph::graph::Graph<u32, (), petgraph::Directed, u32>) -> Seq<(int, int)>;

/// There is an edge from node `a` to node `b`.
pub open spec fn has_edge(edges: Seq<(int, int)>, a: int, b: int) -> bool {
    exists|e: int| 0 <= e < edges.len() && #[trigger] edges[e] == (a, b)
}

/// In `p`, there is an edge from the node at position `t` to the next.
pub open spec fn steps(edges: Seq<(int, int)>, p: Seq<int>, t: int) -> bool {
    has_edge(edges, p[t], p[t + 1])
}

/// `p` is a walk along edges: each of its nodes has an edge to the next.
pub open spec fn is_walk(edges: Seq<(int, int)>, p: Seq<int>) -> bool {
    &&& p.len() >= 1
    &&& forall|t: int| 0 <= t < p.len() - 1 ==> #[trigger] steps(edges, p, t)
}

/// Node `v` can be reached from node `u` along edges.
pub open spec fn reaches(edges: Seq<(int, int)>, u: int, v: int) -> bool {
    exists|p: Seq<int>| #[trigger] is_walk(edges, p) && p[0] == u && p[p.len() - 1] == v
}

/// Node `v` stands in component `i`.
pub open spec fn stands_in(comps: Seq<Seq<int>>, v: int, i: int) -> bool {
    0 <= i < comps.len() && comps[i].contains(v)
}

/// The component in which node `v` stands.
pub open spec fn comp_of(comps: Seq<Seq<int>>, v: int) -> int {
    choose|i: int| stands_in(comps, v, i)
}

/// `comps` lists the strongly connected components of the graph with nodes
/// `0 .. n` and the given edges: each node stands in the list once, two
/// nodes stand in one component exactly if each can be reached from the
/// other, and no edge leads from a component to one that comes later.
#[verifier::opaque]
pub open spec fn is_scc_order(n: int, edges: Seq<(int, int)>, comps: Seq<Seq<int>>) -> bool {
    &&& forall|i: int, j: int|
        0 <= i < comps.len() && 0 <= j < comps[i].len() ==> 0 <= #[trigger] comps[i][j] < n
    &&& forall|v: int| 0 <= v < n ==> #[trigger] stands_in(comps, v, comp_of(comps, v))
    &&& forall|i: int, j: int, i2: int, j2: int|
        0 <= i < comps.len() && 0 <= j < comps[i].len() && 0 <= i2 < comps.len() && 0 <= j2
            < comps[i2].len() && #[trigger] comps[i][j] == #[trigger] comps[i2][j2] ==> i == i2
            && j == j2
    &&& forall|u: int, v: int|
        0 <= u < n && 0 <= v < n ==> ((#[trigger] comp_of(comps, u) == #[trigger] comp_of(
            comps,
            v,
        )) <==> reaches(edges, u, v) && reaches(edges, v, u))
    &&& forall|e: int|
        0 <= e < edges.len() && 0 <= (#[trigger] edges[e]).0 < n && 0 <= edges[e].1 < n ==> comp_of(
            comps,
            edges[e].1,
        ) <= comp_of(comps, edges[e].0)
}

/// Every node stands in its component, and a node of component `i` has `i`
/// as its component.
pub proof fn lemma_scc_node(n: int, edges: Seq<(int, int)>, comps: Seq<Seq<int>>, i: int, j: int)
    requires
        is_scc_order(n, edges, comps),
        0 <= i < comps.len(),
        0 <= j < comps[i].len(),
    ensures
        comp_of(comps, comps[i][j]) == i,
        0 <= comps[i][j] < n,
{
    reveal(is_scc_order);
    let v = comps[i][j];
    assert(stands_in(comps, v, comp_of(comps, v)));
    let i2 = comp_of(comps, v);
    let j2 = choose|j2: int| 0 <= j2 < comps[i2].len() && comps[i2][j2] == v;
    assert(comps[i][j] == comps[i2][j2]);
}

/// Every node stands at some position of its component.
pub proof fn lemma_scc_place(n: int, edges: Seq<(int, int)>, comps: Seq<Seq<int>>, v: int) -> (j: int)
    requires
        is_scc_order(n, edges, comps),
        0 <= v < n,
    ensures
        0 <= comp_of(comps, v) < comps.len(),
        0 <= j < comps[comp_of(comps, v)].len(),
        comps[comp_of(comps, v)][j] == v,
{
    reveal(is_scc_order);
    assert(stands_in(comps, v, comp_of(comps, v)));
    let i = comp_of(comps, v);
    choose|j: int| 0 <= j < comps[i].len() && comps[i][j] == v
}

/// No edge leads from a component to one that comes later.
pub proof fn lemma_scc_edge(n: int, edges: Seq<(int, int)>, comps: Seq<Seq<int>>, e: int)
    requires
        is_scc_order(n, edges, comps),
        0 <= e < edges.len(),
        0 <= edges[e].0 < n,
        0 <= edges[e].1 < n,
    ensures
        comp_of(comps, edges[e].1) <= comp_of(comps, edges[e].0),
{
    reveal(is_scc_order);
}

/// Two nodes of one component can each be reached from the other.
pub proof fn lemma_scc_mutual(n: int, edges: Seq<(int, int)>, comps: Seq<Seq<int>>, u: int, v: int)
    requires
        is_scc_order(n, edges, comps),
        0 <= u < n,
        0 <= v < n,
        comp_of(comps, u) == comp_of(comps, v),
    ensures
        reaches(edges, u, v),
        reaches(edges, v, u),
{
    reveal(is_scc_order);
}

/// The components as sequences of node indices.
pub open spec fn comps_view(sccs: Seq<Vec<usize>>) -> Seq<Seq<int>> {
    Seq::new(sccs.len(), |i: int| Seq::new(sccs[i]@.len(), |j: int| sccs[i]@[j] as int))
}

/// `Graph::new`: a directed graph without nodes or edges.
#[verifier::external_body]
pub(crate) fn graph_new() -> (g: petgraph::graph::Graph<u32, (), petgraph::Directed, u32>)
    ensures
        graph_nodes(g).len() == 0,
        graph_edges(g).len() == 0,
{
    petgraph::graph::Graph::new()
}

/// `Graph::add_node`: adds a node with the given weight after the nodes
/// there are, and returns its index. The edges stay as they are. The graph
/// must hold fewer nodes than its index type can count.
#[verifier::external_body]
pub(crate) fn graph_add_node(
    g: &mut petgraph::graph::Graph<u32, (), petgraph::Directed, u32>,
    weight: u32,
) -> (index: usize)
    requires
        graph_nodes(*old(g)).len() < 0xffff_ffff,
    ensures
        graph_nodes(*final(g)) == graph_nodes(*old(g)).push(weight),
        graph_edges(*final(g)) == graph_edges(*old(g)),
        index == graph_nodes(*old(g)).len(),
{
    g.add_node(weight).index()
}

/// `Graph::add_edge`: adds an edge from node `a` to node `b` after the edges
/// there are. The nodes stay as they are. Both nodes must exist, and the
/// graph must hold fewer edges than its index type can count.
#[verifier::external_body]
pub(crate) fn graph_add_edge(
    g: &mut petgraph::graph::Graph<u32, (), petgraph::Directed, u32>,
    a: usize,
    b: usize,
)
    requires
        a < graph_nodes(*old(g)).len(),
        b < graph_nodes(*old(g)).len(),
        graph_edges(*old(g)).len() < 0xffff_ffff,
    ensures
        graph_nodes(*final(g)) == graph_nodes(*old(g)),
        graph_edges(*final(g)) == graph_edges(*old(g)).push((a as int, b as int)),
{
    g.add_edge(NodeIndex::new(a), NodeIndex::new(b), ());
}

/// Indexing a `Graph` by a node index: the weight of node `a`, which must exist.
#[verifier::external_body]
pub(crate) fn graph_weight(
    g: &petgraph::graph::Graph<u32, (), petgraph::Directed, u32>,
    a: usize,
) -> (weight: u32)
    requires
        a < graph_nodes(*g).len(),
    ensures
        weight == graph_nodes(*g)[a as int],
{
    g[NodeIndex::new(a)]
}

/// `petgraph::algo::tarjan_scc`: the strongly connected components of the
/// graph, each as the indices of its nodes, in reverse topological order: an
/// edge never leads from a component to one that comes later.
#[verifier::external_body]
pub(crate) fn graph_sccs(g: &petgraph::graph::Graph<u32, (), petgraph::Directed, u32>) -> (sccs: Vec<
    Vec<usize>,
>)
    ensures
        is_scc_order(graph_nodes(*g).len() as int, graph_edges(*g), comps_view(sccs@)),
{
    petgraph::algo::tarjan_scc(g).into_iter().map(
        |scc| scc.into_iter().map(|x| x.index()).collect(),
    ).collect()
}

} // verus!
