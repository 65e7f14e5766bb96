use crate::automaton::Automaton;
use crate::re_to_nfa::{BranchLabel, State};
use petgraph::graph::Graph;
use petgraph::graph::NodeIndex;
use petgraph::visit::EdgeRef;
use vstd::prelude::*;

verus! {

#[verifier::external_type_specification]
#[verifier::external_body]
#[verifier::reject_recursive_types(N)]
#[verifier::reject_recursive_types(E)]
#[verifier::reject_recursive_types(Ty)]
#[verifier::reject_recursive_types(Ix)]
pub struct ExGraph<N, E, Ty, Ix>(Graph<N, E, Ty, Ix>);

#[verifier::external_type_specification]
#[verifier::external_body]
pub struct ExDirected(petgraph::Directed);

/// The states of an automaton graph, by node index.
pub uninterp spec fn graph_nodes(g: Graph<State, BranchLabel<char>>) -> Seq<State>;

/// The transitions of an automaton graph, by edge index: source, target, label.
pub uninterp spec fn graph_edges(g: Graph<State, BranchLabel<char>>) -> Seq<
    (int, int, BranchLabel<char>),
>;

/// What an automaton graph holds.
pub open spec fn model(g: Graph<State, BranchLabel<char>>) -> Automaton {
    Automaton { states: graph_nodes(g), edges: graph_edges(g) }
}

/// The transitions that leave `a`, each as its target and label.
pub open spec fn outgoing(edges: Seq<(int, int, BranchLabel<char>)>, a: int) -> Seq<
    (int, BranchLabel<char>),
>
    decreases edges.len(),
{
    if edges.len() == 0 {
        Seq::empty()
    } else if edges.last().0 == a {
        seq![(edges.last().1, edges.last().2)] + outgoing(edges.drop_last(), a)
    } else {
        outgoing(edges.drop_last(), a)
    }
}

/// Every transition that leaves `a` is among `outgoing(edges, a)`.
pub proof fn lemma_outgoing_holds(edges: Seq<(int, int, BranchLabel<char>)>, a: int, e: int)
    requires
        0 <= e < edges.len(),
        edges[e].0 == a,
    ensures
        exists|k: int|
            0 <= k < outgoing(edges, a).len() && #[trigger] outgoing(edges, a)[k] == (
                edges[e].1,
                edges[e].2,
            ),
    decreases edges.len(),
{
    let rest = outgoing(edges.drop_last(), a);
    if e == edges.len() - 1 {
        assert(outgoing(edges, a)[0] == (edges[e].1, edges[e].2));
    } else {
        lemma_outgoing_holds(edges.drop_last(), a, e);
        let k = choose|k: int|
            0 <= k < rest.len() && #[trigger] rest[k] == (edges[e].1, edges[e].2);
        if edges.last().0 == a {
            assert(outgoing(edges, a)[k + 1] == rest[k]);
        } else {
            assert(outgoing(edges, a)[k] == rest[k]);
        }
    }
}

/// Every member of `outgoing(edges, a)` is a transition that leaves `a`.
pub proof fn lemma_outgoing_found(edges: Seq<(int, int, BranchLabel<char>)>, a: int, k: int)
    requires
        0 <= k < outgoing(edges, a).len(),
    ensures
        exists|e: int|
            0 <= e < edges.len() && #[trigger] edges[e] == (
                a,
                outgoing(edges, a)[k].0,
                outgoing(edges, a)[k].1,
            ),
    decreases edges.len(),
{
    if edges.len() == 0 {
    } else if edges.last().0 == a && k == 0 {
        assert(edges[edges.len() - 1] == (a, outgoing(edges, a)[k].0, outgoing(edges, a)[k].1));
    } else {
        let j = if edges.last().0 == a { k - 1 } else { k };
        lemma_outgoing_found(edges.drop_last(), a, j);
        let e = choose|e: int|
            0 <= e < edges.drop_last().len() && #[trigger] edges.drop_last()[e] == (
                a,
                outgoing(edges.drop_last(), a)[j].0,
                outgoing(edges.drop_last(), a)[j].1,
            );
        assert(edges[e] == edges.drop_last()[e]);
    }
}

/// Targets and labels as they come out of a graph, with the targets as integers.
pub open spec fn shown(out: Seq<(usize, BranchLabel<char>)>) -> Seq<(int, BranchLabel<char>)> {
    out.map_values(|p: (usize, BranchLabel<char>)| (p.0 as int, p.1))
}

/// A transition leaves `a` for the target and with the label of `pair`.
pub open spec fn is_edge(
    edges: Seq<(int, int, BranchLabel<char>)>,
    a: int,
    pair: (int, BranchLabel<char>),
) -> bool {
    exists|e: int| 0 <= e < edges.len() && #[trigger] edges[e] == (a, pair.0, pair.1)
}

/// `leaving` holds the transitions that leave `a`, each as its target and
/// label, and nothing else.
pub open spec fn hands(
    edges: Seq<(int, int, BranchLabel<char>)>,
    a: int,
    leaving: Seq<(int, BranchLabel<char>)>,
) -> bool {
    &&& forall|k: int| 0 <= k < leaving.len() ==> is_edge(edges, a, #[trigger] leaving[k])
    &&& forall|e: int|
        0 <= e < edges.len() && (#[trigger] edges[e]).0 == a ==> leaving.contains(
            (edges[e].1, edges[e].2),
        )
}

/// What comes out of a graph for a node, in whatever order, holds the
/// transitions that leave the node and nothing else.
pub proof fn lemma_out_edges(
    edges: Seq<(int, int, BranchLabel<char>)>,
    a: int,
    out: Seq<(usize, BranchLabel<char>)>,
)
    requires
        shown(out).to_multiset() == outgoing(edges, a).to_multiset(),
    ensures
        hands(edges, a, shown(out)),
        shown(out).len() == out.len(),
        forall|k: int|
            0 <= k < out.len() ==> (#[trigger] shown(out)[k]).0 == out[k].0 && shown(out)[k].1
                == out[k].1,
{
    let leaving = shown(out);
    let all = outgoing(edges, a);
    leaving.to_multiset_ensures();
    all.to_multiset_ensures();
    assert forall|k: int| 0 <= k < leaving.len() implies is_edge(
        edges,
        a,
        #[trigger] leaving[k],
    ) by {
        assert(leaving.contains(leaving[k]));
        assert(all.to_multiset().count(leaving[k]) > 0);
        assert(all.contains(leaving[k]));
        let j = choose|j: int| 0 <= j < all.len() && all[j] == leaving[k];
        lemma_outgoing_found(edges, a, j);
    }
    assert forall|e: int| 0 <= e < edges.len() && (#[trigger] edges[e]).0 == a implies leaving.contains(
        (edges[e].1, edges[e].2),
    ) by {
        lemma_outgoing_holds(edges, a, e);
        let j = choose|j: int|
            0 <= j < all.len() && #[trigger] all[j] == (edges[e].1, edges[e].2);
        assert(all.contains(all[j]));
        assert(leaving.to_multiset().count(all[j]) > 0);
    }
}

/// `Graph::new`: a graph without nodes and edges.
#[verifier::external_body]
pub(crate) fn new_graph() -> (g: Graph<State, BranchLabel<char>>)
    ensures
        graph_nodes(g) == Seq::<State>::empty(),
        graph_edges(g) == Seq::<(int, int, BranchLabel<char>)>::empty(),
{
    Graph::new()
}

/// `Graph::node_count`: the number of nodes.
#[verifier::external_body]
pub(crate) fn node_count(g: &Graph<State, BranchLabel<char>>) -> (n: usize)
    ensures
        n == graph_nodes(*g).len(),
{
    g.node_count()
}

/// `Graph::edge_count`: the number of edges.
#[verifier::external_body]
pub(crate) fn edge_count(g: &Graph<State, BranchLabel<char>>) -> (n: usize)
    ensures
        n == graph_edges(*g).len(),
{
    g.edge_count()
}

/// `Graph::add_node`: appends a node with the given state and returns its
/// index, the number of nodes before the call. It panics on a graph that
/// already holds `u32::MAX` nodes.
#[verifier::external_body]
pub(crate) fn add_node(g: &mut Graph<State, BranchLabel<char>>, state: State) -> (index: usize)
    requires
        graph_nodes(*old(g)).len() < u32::MAX,
    ensures
        graph_nodes(*final(g)) == graph_nodes(*old(g)).push(state),
        graph_edges(*final(g)) == graph_edges(*old(g)),
        index == graph_nodes(*old(g)).len(),
{
    g.add_node(state).index()
}

/// `Graph::add_edge`: appends an edge from node `a` to node `b`; parallel edges
/// and loops are kept. It panics where a node is missing or the graph already
/// holds `u32::MAX` edges.
#[verifier::external_body]
pub(crate) fn add_edge(
    g: &mut Graph<State, BranchLabel<char>>,
    a: usize,
    b: usize,
    label: BranchLabel<char>,
)
    requires
        a < graph_nodes(*old(g)).len(),
        b < graph_nodes(*old(g)).len(),
        graph_edges(*old(g)).len() < u32::MAX,
    ensures
        graph_nodes(*final(g)) == graph_nodes(*old(g)),
        graph_edges(*final(g)) == graph_edges(*old(g)).push((a as int, b as int, label)),
{
    g.add_edge(NodeIndex::new(a), NodeIndex::new(b), label);
}

/// `Graph::node_weight`: the state of node `a`, which exists.
#[verifier::external_body]
pub(crate) fn node_state(g: &Graph<State, BranchLabel<char>>, a: usize) -> (state: State)
    requires
        a < graph_nodes(*g).len(),
    ensures
        state == graph_nodes(*g)[a as int],
{
    *g.node_weight(NodeIndex::new(a)).unwrap()
}

/// `Graph::node_weight_mut`: replaces the state of node `a`, which exists.
#[verifier::external_body]
pub(crate) fn set_node_state(g: &mut Graph<State, BranchLabel<char>>, a: usize, state: State)
    requires
        a < graph_nodes(*old(g)).len(),
    ensures
        graph_nodes(*final(g)) == graph_nodes(*old(g)).update(a as int, state),
        graph_edges(*final(g)) == graph_edges(*old(g)),
{
    *g.node_weight_mut(NodeIndex::new(a)).unwrap() = state;
}

/// `Graph::edges`: the edges that leave node `a`, which exists, each once
/// and as its target and label. Nothing is claimed of their order: the
/// graph threads the edges of a node through its edge list, and a removal
/// moves an edge to another index.
#[verifier::external_body]
pub(crate) fn out_edges(g: &Graph<State, BranchLabel<char>>, a: usize) -> (out: Vec<
    (usize, BranchLabel<char>),
>)
    requires
        a < graph_nodes(*g).len(),
    ensures
        shown(out@).to_multiset() == outgoing(graph_edges(*g), a as int).to_multiset(),
{
    g.edges(NodeIndex::new(a)).map(|e| (e.target().index(), *e.weight())).collect()
}

/// `Graph::clone`: a graph with the same nodes and edges at the same indices.
#[verifier::external_body]
pub(crate) fn clone_graph(g: &Graph<State, BranchLabel<char>>) -> (copy: Graph<
    State,
    BranchLabel<char>,
>)
    ensures
        graph_nodes(copy) == graph_nodes(*g),
        graph_edges(copy) == graph_edges(*g),
{
    g.clone()
}

} // verus!
