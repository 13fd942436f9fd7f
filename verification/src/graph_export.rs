//! Exporting the dependency graph as a materialized directed multigraph of
//! `petgraph`, a read-only projection for external introspection: node =
//! operation id, edge = dependency to dependent, weight = the argument slots
//! the dependency fills.

use vstd::prelude::*;

verus! {

#[verifier::external_type_specification]
#[verifier::external_body]
#[verifier::reject_recursive_types(N)]
#[verifier::reject_recursive_types(E)]
#[verifier::reject_recursive_types(Ty)]
#[verifier::reject_recursive_types(S)]
pub struct ExGraphMap<N, E, Ty, S>(petgraph::graphmap::GraphMap<N, E, Ty, S>) where
    S: std::hash::BuildHasher;

#[verifier::external_type_specification]
#[verifier::external_body]
pub struct ExDirected(petgraph::Directed);

/// What a directed graph map holds as nodes.
pub uninterp spec fn digraph_nodes(
    g: petgraph::graphmap::DiGraphMap<usize, Vec<usize>>,
) -> Set<usize>;

/// What a directed graph map holds as edges: each present `(from, to)` pair
/// mapped to its weight.
pub uninterp spec fn digraph_edges(g: petgraph::graphmap::DiGraphMap<usize, Vec<usize>>) -> Map<
    (usize, usize),
    Seq<usize>,
>;

/// Relies on petgraph's `GraphMap::new`: an empty graph.
#[verifier::external_body]
pub fn digraph_new() -> (r: petgraph::graphmap::DiGraphMap<usize, Vec<usize>>)
    ensures
        forall|n: usize| !(#[trigger] digraph_nodes(r).contains(n)),
        forall|e: (usize, usize)| !(#[trigger] digraph_edges(r).contains_key(e)),
{
    petgraph::graphmap::DiGraphMap::new()
}

/// Relies on petgraph's `GraphMap::add_node`: inserts the node and leaves
/// the edges unchanged.
#[verifier::external_body]
pub fn digraph_add_node(g: &mut petgraph::graphmap::DiGraphMap<usize, Vec<usize>>, n: usize)
    ensures
        digraph_nodes(*final(g)) == digraph_nodes(*old(g)).insert(n),
        digraph_edges(*final(g)) == digraph_edges(*old(g)),
{
    g.add_node(n);
}

/// Relies on petgraph's `GraphMap::add_edge`: adds the directed edge from
/// `a` to `b` with the given weight, inserting missing endpoints; returns
/// the old weight if the edge already existed, else nothing.
#[verifier::external_body]
pub fn digraph_add_edge(
    g: &mut petgraph::graphmap::DiGraphMap<usize, Vec<usize>>,
    a: usize,
    b: usize,
    weight: Vec<usize>,
) -> (r: Option<Vec<usize>>)
    ensures
        digraph_nodes(*final(g)) == digraph_nodes(*old(g)).insert(a).insert(b),
        digraph_edges(*final(g)) == digraph_edges(*old(g)).insert((a, b), weight@),
        match r {
            Some(w) => digraph_edges(*old(g)).contains_key((a, b)) && w@ == digraph_edges(
                *old(g),
            )[(a, b)],
            None => !digraph_edges(*old(g)).contains_key((a, b)),
        },
{
    g.add_edge(a, b, weight)
}

} // verus!
