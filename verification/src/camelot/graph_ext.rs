//! Trusted bridge to petgraph's adjacency-list graph, which stores the
//! wheel's transition graph. The graph value is opaque to the verifier;
//! `graph_node_seq` and `graph_edge_seq` name what it holds (its node
//! weights in index order, and its edges in insertion order), and each
//! wrapper states over those names what petgraph's source shows.

use vstd::prelude::*;
use petgraph::prelude::EdgeRef;
use crate::camelot::Key;
use crate::camelot::transition::KeyTransition;

verus! {

#[verifier::external_type_specification]
#[verifier::external_body]
#[verifier::reject_recursive_types(N)]
#[verifier::reject_recursive_types(E)]
#[verifier::reject_recursive_types(Ty)]
#[verifier::reject_recursive_types(Ix)]
pub struct ExGraph<N, E, Ty, Ix>(petgraph::graph::Graph<N, E, Ty, Ix>);

#[verifier::external_type_specification]
#[verifier::external_body]
pub struct ExUndirected(petgraph::Undirected);

/// The node weights of the graph, in node-index order.
pub uninterp spec fn graph_node_seq(
    g: petgraph::graph::Graph<Key, KeyTransition, petgraph::Undirected, u32>,
) -> Seq<Key>;

/// The edges of the graph, in insertion order, each as the node indices
/// of its two endpoints and its label.
pub uninterp spec fn graph_edge_seq(
    g: petgraph::graph::Graph<Key, KeyTransition, petgraph::Undirected, u32>,
) -> Seq<(usize, usize, KeyTransition)>;

/// Edge `e` touches node `a` and leads to `b` with label `t`, in either
/// storage orientation.
pub open spec fn edge_touches(e: (usize, usize, KeyTransition), a: usize, b: usize, t: KeyTransition) -> bool {
    e.2 == t && ((e.0 == a && e.1 == b) || (e.1 == a && e.0 == b))
}

/// Relies on petgraph's `Graph::new_undirected`: the new graph has no
/// nodes and no edges.
#[verifier::external_body]
pub(crate) fn graph_new() -> (g: petgraph::graph::Graph<Key, KeyTransition, petgraph::Undirected, u32>)
    ensures
        graph_node_seq(g) == Seq::<Key>::empty(),
        graph_edge_seq(g) == Seq::<(usize, usize, KeyTransition)>::empty(),
{
    petgraph::graph::Graph::new_undirected()
}

/// Relies on petgraph's `Graph::add_node`: appends one node holding
/// `weight` and returns its index, the previous node count.
#[verifier::external_body]
pub(crate) fn graph_add_node(
    g: &mut petgraph::graph::Graph<Key, KeyTransition, petgraph::Undirected, u32>,
    weight: Key,
) -> (i: usize)
    requires
        graph_node_seq(*old(g)).len() < 0xffff_ffff,
    ensures
        graph_node_seq(*final(g)) == graph_node_seq(*old(g)).push(weight),
        graph_edge_seq(*final(g)) == graph_edge_seq(*old(g)),
        i == graph_node_seq(*old(g)).len(),
{
    g.add_node(weight).index()
}

/// Relies on petgraph's `Graph::add_edge`: appends one edge between the
/// existing nodes `a` and `b`, labeled `weight`; parallel edges are kept.
#[verifier::external_body]
pub(crate) fn graph_add_edge(
    g: &mut petgraph::graph::Graph<Key, KeyTransition, petgraph::Undirected, u32>,
    a: usize,
    b: usize,
    weight: KeyTransition,
)
    requires
        a < graph_node_seq(*old(g)).len(),
        b < graph_node_seq(*old(g)).len(),
        graph_edge_seq(*old(g)).len() < 0xffff_ffff,
    ensures
        graph_edge_seq(*final(g)) == graph_edge_seq(*old(g)).push((a, b, weight)),
        graph_node_seq(*final(g)) == graph_node_seq(*old(g)),
{
    g.add_edge(
        petgraph::graph::NodeIndex::new(a),
        petgraph::graph::NodeIndex::new(b),
        weight,
    );
}

/// Relies on petgraph's `Graph::node_count`: the number of nodes.
#[verifier::external_body]
pub(crate) fn graph_node_count(
    g: &petgraph::graph::Graph<Key, KeyTransition, petgraph::Undirected, u32>,
) -> (r: usize)
    ensures
        r == graph_node_seq(*g).len(),
{
    g.node_count()
}

/// Relies on petgraph's `Graph::edge_count`: the number of edges.
#[verifier::external_body]
pub(crate) fn graph_edge_count(
    g: &petgraph::graph::Graph<Key, KeyTransition, petgraph::Undirected, u32>,
) -> (r: usize)
    ensures
        r == graph_edge_seq(*g).len(),
{
    g.edge_count()
}

/// Relies on petgraph's `Graph::node_weight`: the weight stored at an
/// existing node index, `None` past the node count. The index bound
/// keeps `i` faithful through petgraph's narrowing to its `u32` index
/// type.
#[verifier::external_body]
pub(crate) fn graph_node_weight(
    g: &petgraph::graph::Graph<Key, KeyTransition, petgraph::Undirected, u32>,
    i: usize,
) -> (r: Option<Key>)
    requires
        i < 0x1_0000_0000,
    ensures
        i < graph_node_seq(*g).len() ==> r == Some(graph_node_seq(*g)[i as int]),
        i >= graph_node_seq(*g).len() ==> r is None,
{
    g.node_weight(petgraph::graph::NodeIndex::new(i)).copied()
}

/// The pair `p` matches some edge of `edges` at node `a`: the edge
/// touches `a`, leads to `p.0` and carries label `p.1`.
pub open spec fn edge_present(
    edges: Seq<(usize, usize, KeyTransition)>,
    a: usize,
    p: (usize, KeyTransition),
) -> bool {
    exists|j: int| 0 <= j < edges.len() && edge_touches(#[trigger] edges[j], a, p.0, p.1)
}

/// The edge `e`, incident to `a`, appears among the reported pairs `r`.
pub open spec fn edge_reported(
    r: Seq<(usize, KeyTransition)>,
    e: (usize, usize, KeyTransition),
    a: usize,
) -> bool {
    exists|i: int| 0 <= i < r.len() && edge_touches(e, a, (#[trigger] r[i]).0, r[i].1)
}

/// `r` reports exactly the edges of `edges` incident to `a`: every
/// reported pair comes from such an edge, and every such edge is
/// reported.
pub open spec fn reports_edges(
    edges: Seq<(usize, usize, KeyTransition)>,
    a: usize,
    r: Seq<(usize, KeyTransition)>,
) -> bool {
    &&& forall|i: int| 0 <= i < r.len() ==> edge_present(edges, a, #[trigger] r[i])
    &&& forall|j: int|
        0 <= j < edges.len() && ((#[trigger] edges[j]).0 == a || edges[j].1 == a) ==> edge_reported(
            r,
            edges[j],
            a,
        )
}

/// Relies on petgraph's `Graph::edges`: on an undirected graph it yields
/// every edge connected to `a` exactly once, with `target()` the other
/// endpoint, and every target is an existing node. The index bound keeps
/// `a` faithful through petgraph's narrowing to its `u32` index type.
#[verifier::external_body]
pub(crate) fn graph_edges_of(
    g: &petgraph::graph::Graph<Key, KeyTransition, petgraph::Undirected, u32>,
    a: usize,
) -> (r: Vec<(usize, KeyTransition)>)
    requires
        a < 0x1_0000_0000,
    ensures
        reports_edges(graph_edge_seq(*g), a, r@),
        forall|i: int| 0 <= i < r@.len() ==> (#[trigger] r@[i]).0 < graph_node_seq(*g).len(),
{
    g.edges(petgraph::graph::NodeIndex::new(a))
        .map(|e| (e.target().index(), *e.weight()))
        .collect()
}

} // verus!
