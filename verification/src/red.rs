//! The boundary to `petgraph`: the graph container, the names under which
//! its contents appear in contracts, and what is assumed of each method
//! that the library calls. Nothing in this file is proved.

use petgraph::graph::{DiGraph, EdgeIndex, NodeIndex};
use petgraph::visit::EdgeRef;
use vstd::prelude::*;

verus! {

/// `petgraph::graph::Graph`, of which nothing is seen but through the
/// functions below.
#[verifier::external_type_specification]
#[verifier::external_body]
#[verifier::reject_recursive_types(N)]
#[verifier::reject_recursive_types(E)]
#[verifier::reject_recursive_types(Ty)]
#[verifier::reject_recursive_types(Ix)]
pub struct ExGraph<N, E, Ty, Ix>(petgraph::graph::Graph<N, E, Ty, Ix>);

/// `petgraph::Directed`, the marker of graphs whose edges have a direction.
#[verifier::external_type_specification]
#[verifier::external_body]
pub struct ExDirected(petgraph::Directed);

/// The labels of the nodes of a graph, by node index.
pub uninterp spec fn etiquetas_de(g: DiGraph<String, i32>) -> Seq<Seq<char>>;

/// The edges of a graph as (source, target, weight), by edge index.
pub uninterp spec fn aristas_de(g: DiGraph<String, i32>) -> Seq<(usize, usize, i32)>;

/// The test that an edge leaves `a`.
pub open spec fn sale_de(a: usize) -> spec_fn((usize, usize, i32)) -> bool {
    |e: (usize, usize, i32)| e.0 == a
}

/// The edges of `aristas` that leave `a`.
pub open spec fn salen_de(aristas: Seq<(usize, usize, i32)>, a: usize) -> Seq<(usize, usize, i32)> {
    aristas.filter(sale_de(a))
}

/// `DiGraph::new`: assumed to give a graph without nodes and without edges.
#[verifier::external_body]
pub(crate) fn red_vacia() -> (g: DiGraph<String, i32>)
    ensures
        etiquetas_de(g) == Seq::<Seq<char>>::empty(),
        aristas_de(g) == Seq::<(usize, usize, i32)>::empty(),
{
    DiGraph::new()
}

/// `Graph::node_count`: assumed to give the number of nodes.
#[verifier::external_body]
pub(crate) fn red_cuenta_nodos(g: &DiGraph<String, i32>) -> (n: usize)
    ensures
        n == etiquetas_de(*g).len(),
{
    g.node_count()
}

/// `Graph::edge_count`: assumed to give the number of edges.
#[verifier::external_body]
pub(crate) fn red_cuenta_aristas(g: &DiGraph<String, i32>) -> (m: usize)
    ensures
        m == aristas_de(*g).len(),
{
    g.edge_count()
}

/// `Graph::add_node`: assumed to append the label as the node with the next
/// index, to return that index and to leave the edges alone. The index type
/// is `u32`, and the call panics when the graph holds `u32::MAX` nodes.
#[verifier::external_body]
pub(crate) fn red_agregar_nodo(g: &mut DiGraph<String, i32>, etiqueta: String) -> (i: usize)
    requires
        etiquetas_de(*old(g)).len() < u32::MAX,
    ensures
        i == etiquetas_de(*old(g)).len(),
        etiquetas_de(*final(g)) == etiquetas_de(*old(g)).push(etiqueta@),
        aristas_de(*final(g)) == aristas_de(*old(g)),
{
    g.add_node(etiqueta).index()
}

/// `Graph::add_edge`: assumed to append the edge with the next edge index,
/// to return that index and to leave the nodes alone. The call panics when
/// an endpoint is no node or when the graph holds `u32::MAX` edges, and
/// only then: with both left out it is taken not to unwind.
#[verifier::external_body]
pub(crate) fn red_agregar_arista(g: &mut DiGraph<String, i32>, a: usize, b: usize, peso: i32) -> (k: usize)
    requires
        a < etiquetas_de(*old(g)).len(),
        b < etiquetas_de(*old(g)).len(),
        aristas_de(*old(g)).len() < u32::MAX,
    ensures
        k == aristas_de(*old(g)).len(),
        aristas_de(*final(g)) == aristas_de(*old(g)).push((a, b, peso)),
        etiquetas_de(*final(g)) == etiquetas_de(*old(g)),
    no_unwind
{
    g.add_edge(NodeIndex::new(a), NodeIndex::new(b), peso).index()
}

/// Indexing a graph by a node to write its label: assumed to replace the
/// label of node `i` and to leave all else alone. The call panics when `i`
/// is no node, and only then: with that left out it is taken not to unwind.
#[verifier::external_body]
pub(crate) fn red_renombrar(g: &mut DiGraph<String, i32>, i: usize, etiqueta: String)
    requires
        i < etiquetas_de(*old(g)).len(),
    ensures
        etiquetas_de(*final(g)) == etiquetas_de(*old(g)).update(i as int, etiqueta@),
        aristas_de(*final(g)) == aristas_de(*old(g)),
    no_unwind
{
    g[NodeIndex::new(i)] = etiqueta;
}

/// `Graph::node_weight`: assumed to give the label of node `i`.
#[verifier::external_body]
pub(crate) fn red_etiqueta(g: &DiGraph<String, i32>, i: usize) -> (r: Option<&String>)
    requires
        i < etiquetas_de(*g).len(),
    ensures
        r is Some,
        r->0@ == etiquetas_de(*g)[i as int],
{
    g.node_weight(NodeIndex::new(i))
}

/// `Graph::find_edge`: assumed to give the index of an edge from `a` to `b`
/// where there is one, and `None` where there is none. Which one of several
/// parallel edges it gives is left open.
#[verifier::external_body]
pub(crate) fn red_buscar_arista(g: &DiGraph<String, i32>, a: usize, b: usize) -> (k: Option<usize>)
    requires
        a < etiquetas_de(*g).len(),
        b < etiquetas_de(*g).len(),
    ensures
        k matches Some(i) ==> i < aristas_de(*g).len() && aristas_de(*g)[i as int].0 == a
            && aristas_de(*g)[i as int].1 == b,
        k is None ==> forall|i: int|
            0 <= i < aristas_de(*g).len() ==> !((#[trigger] aristas_de(*g)[i]).0 == a
                && aristas_de(*g)[i].1 == b),
{
    g.find_edge(NodeIndex::new(a), NodeIndex::new(b)).map(|e| e.index())
}

/// `Graph::edge_weight`: assumed to give the weight of the edge with index `k`.
#[verifier::external_body]
pub(crate) fn red_peso(g: &DiGraph<String, i32>, k: usize) -> (peso: Option<i32>)
    requires
        k < aristas_de(*g).len(),
    ensures
        peso == Some(aristas_de(*g)[k as int].2),
{
    g.edge_weight(EdgeIndex::new(k)).copied()
}

/// `Graph::edges`: assumed to hand out exactly the edges that leave `a`, each
/// once. The order in which they come follows the order in which the edges
/// were added, which the contents do not record: nothing is claimed of it.
#[verifier::external_body]
pub(crate) fn red_salientes(g: &DiGraph<String, i32>, a: usize) -> (salientes: Vec<(usize, usize, i32)>)
    requires
        a < etiquetas_de(*g).len(),
    ensures
        salientes@.to_multiset() == salen_de(aristas_de(*g), a).to_multiset(),
{
    g.edges(NodeIndex::new(a)).map(|e| (e.source().index(), e.target().index(), *e.weight())).collect()
}

} // verus!
