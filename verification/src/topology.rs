//! The shape of the graph, kept in a `petgraph` stable graph: which nodes
//! there are and which edge runs from which node to which. The weights in it
//! are the places of the labels, which the graph holds itself.

use vstd::prelude::*;
use petgraph::graph::NodeIndex;
use petgraph::stable_graph::StableGraph;
use petgraph::Directed;

verus! {

#[verifier::external_type_specification]
#[verifier::external_body]
#[verifier::reject_recursive_types(N)]
#[verifier::reject_recursive_types(E)]
#[verifier::reject_recursive_types(Ty)]
#[verifier::reject_recursive_types(Ix)]
pub struct ExStableGraph<N, E, Ty, Ix>(StableGraph<N, E, Ty, Ix>);

#[verifier::external_type_specification]
#[verifier::external_body]
pub struct ExDirected(Directed);

/// The node slots of a stable graph, by index: the weight of the node that
/// has the index, `None` where a node was removed and the slot is vacant.
pub uninterp spec fn topology_nodes(g: StableGraph<usize, usize, Directed, usize>) -> Seq<Option<usize>>;

/// The edge slots of a stable graph, by index: source, target and weight of
/// the edge that has the index, `None` where the slot is vacant.
pub uninterp spec fn topology_edges(g: StableGraph<usize, usize, Directed, usize>) -> Seq<Option<(usize, usize, usize)>>;

/// No node was ever removed, and no edge: every slot is in use.
pub open spec fn topology_dense(g: StableGraph<usize, usize, Directed, usize>) -> bool {
    &&& forall|i: int| 0 <= i < topology_nodes(g).len() ==> (#[trigger] topology_nodes(g)[i]) is Some
    &&& forall|i: int| 0 <= i < topology_edges(g).len() ==> (#[trigger] topology_edges(g)[i]) is Some
}

/// A graph without nodes and edges.
///
/// Trusted: calls `StableGraph::with_capacity`, which makes a graph with no
/// slots at all.
#[verifier::external_body]
pub(crate) fn topology_new() -> (g: StableGraph<usize, usize, Directed, usize>)
    ensures
        topology_nodes(g) == Seq::<Option<usize>>::empty(),
        topology_edges(g) == Seq::<Option<(usize, usize, usize)>>::empty(),
{
    StableGraph::with_capacity(0, 0)
}

/// Adds a node and gives its index.
///
/// Trusted: calls `StableGraph::add_node`. With no vacant slot to fill, it
/// appends a slot, so the new index is the number of slots before the call.
/// With `usize` indices it has no limit at which it panics.
#[verifier::external_body]
pub(crate) fn topology_add_node(
    g: &mut StableGraph<usize, usize, Directed, usize>,
    weight: usize,
) -> (index: usize)
    requires
        topology_dense(*old(g)),
    ensures
        index == topology_nodes(*old(g)).len(),
        topology_nodes(*final(g)) == topology_nodes(*old(g)).push(Some(weight)),
        topology_edges(*final(g)) == topology_edges(*old(g)),
{
    g.add_node(weight).index()
}

/// Whether `index` is the index of a node.
///
/// Trusted: calls `StableGraph::contains_node`, which looks at the slot with
/// that index and says whether there is one and it holds a node.
#[verifier::external_body]
pub(crate) fn topology_contains_node(
    g: &StableGraph<usize, usize, Directed, usize>,
    index: usize,
) -> (r: bool)
    ensures
        r == (index < topology_nodes(*g).len() && topology_nodes(*g)[index as int] is Some),
{
    g.contains_node(NodeIndex::new(index))
}

/// Adds an edge from `source` to `target` and gives its index.
///
/// Trusted: calls `StableGraph::add_edge`, which panics where one of the two
/// is not a node. With no vacant slot to fill, it appends a slot, so the new
/// index is the number of slots before the call.
#[verifier::external_body]
pub(crate) fn topology_add_edge(
    g: &mut StableGraph<usize, usize, Directed, usize>,
    source: usize,
    target: usize,
    weight: usize,
) -> (index: usize)
    requires
        topology_dense(*old(g)),
        source < topology_nodes(*old(g)).len(),
        target < topology_nodes(*old(g)).len(),
    ensures
        index == topology_edges(*old(g)).len(),
        topology_edges(*final(g)) == topology_edges(*old(g)).push(Some((source, target, weight))),
        topology_nodes(*final(g)) == topology_nodes(*old(g)),
{
    g.add_edge(NodeIndex::new(source), NodeIndex::new(target), weight).index()
}

} // verus!
