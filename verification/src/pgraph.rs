//! The trusted boundary around petgraph.
//!
//! The course graph is held in a `petgraph::graph::Graph`. Verus sees that
//! type as opaque, so its contents are named by two uninterpreted spec
//! functions — the node count and the edge list in insertion order — and every
//! method the library calls goes through a small wrapper whose contract states,
//! over those two names, what petgraph's source shows.

use vstd::prelude::*;

use crate::graph::EdgeType;

verus! {

#[verifier::external_type_specification]
#[verifier::external_body]
#[verifier::reject_recursive_types(N)]
#[verifier::reject_recursive_types(E)]
#[verifier::reject_recursive_types(Ty)]
#[verifier::reject_recursive_types(Ix)]
pub struct ExGraph<N, E, Ty, Ix>(petgraph::graph::Graph<N, E, Ty, Ix>);

#[verifier::external_type_specification]
#[verifier::external_body]
pub struct ExDirected(petgraph::Directed);

/// How many nodes the graph holds.
pub uninterp spec fn graph_node_count(g: petgraph::graph::Graph<usize, EdgeType>) -> nat;

/// The graph's edges as `(source, target, label)`, in insertion order.
pub uninterp spec fn graph_edge_list(g: petgraph::graph::Graph<usize, EdgeType>) -> Seq<
    (usize, usize, EdgeType),
>;

/// The predicate picking the edges that leave `a`.
pub open spec fn edge_from(a: usize) -> spec_fn((usize, usize, EdgeType)) -> bool {
    |e: (usize, usize, EdgeType)| e.0 == a
}

/// The predicate picking the edges that enter `a`.
pub open spec fn edge_into(a: usize) -> spec_fn((usize, usize, EdgeType)) -> bool {
    |e: (usize, usize, EdgeType)| e.1 == a
}

/// Forgetting an edge's source, keeping its target and label.
pub open spec fn drop_source() -> spec_fn((usize, usize, EdgeType)) -> (usize, EdgeType) {
    |e: (usize, usize, EdgeType)| (e.1, e.2)
}

/// The outgoing edges of `a` as `(target, label)`, in the order petgraph's
/// directed adjacency yields them: most recently inserted first.
pub open spec fn out_edge_list(g: petgraph::graph::Graph<usize, EdgeType>, a: usize) -> Seq<
    (usize, EdgeType),
> {
    graph_edge_list(g).filter(edge_from(a)).map_values(drop_source()).reverse()
}

/// How many edges point into `a`.
pub open spec fn in_degree_of(g: petgraph::graph::Graph<usize, EdgeType>, a: usize) -> nat {
    graph_edge_list(g).filter(edge_into(a)).len()
}

pub proof fn lemma_filter_no_match<A>(s: Seq<A>, pred: spec_fn(A) -> bool)
    requires
        forall|k: int| 0 <= k < s.len() ==> !pred(#[trigger] s[k]),
    ensures
        s.filter(pred).len() == 0,
    decreases s.len(),
{
    reveal(Seq::filter);
    if s.len() > 0 {
        assert(forall|k: int| 0 <= k < s.drop_last().len() ==> #[trigger] s.drop_last()[k] == s[k]);
        lemma_filter_no_match(s.drop_last(), pred);
    }
}

pub proof fn lemma_filter_elem<A>(s: Seq<A>, pred: spec_fn(A) -> bool, i: int)
    requires
        0 <= i < s.filter(pred).len(),
    ensures
        exists|k: int| 0 <= k < s.len() && s[k] == s.filter(pred)[i],
    decreases s.len(),
{
    reveal(Seq::filter);
    if s.len() > 0 {
        let sub = s.drop_last().filter(pred);
        if pred(s.last()) && i == sub.len() {
            assert(s[s.len() - 1] == s.filter(pred)[i]);
        } else {
            lemma_filter_elem(s.drop_last(), pred, i);
            let k = choose|k: int| 0 <= k < s.drop_last().len() && s.drop_last()[k] == s.drop_last().filter(pred)[i];
            assert(s[k] == s.filter(pred)[i]);
        }
    }
}

/// Each entry of the outgoing list of `a` corresponds to an edge of the
/// graph's edge list with source `a`.
pub proof fn lemma_out_edge_entry(g: petgraph::graph::Graph<usize, EdgeType>, a: usize, i: int)
    requires
        0 <= i < out_edge_list(g, a).len(),
    ensures
        exists|k: int|
            0 <= k < graph_edge_list(g).len() && #[trigger] graph_edge_list(g)[k] == (
            a,
            out_edge_list(g, a)[i].0,
            out_edge_list(g, a)[i].1,
            ),
{
    let el = graph_edge_list(g);
    let filtered = el.filter(edge_from(a));
    let mapped = filtered.map_values(drop_source());
    let j = mapped.len() - 1 - i;
    assert(out_edge_list(g, a)[i] == mapped[j]);
    assert(mapped[j] == drop_source()(filtered[j]));
    el.lemma_filter_pred(edge_from(a), j);
    lemma_filter_elem(el, edge_from(a), j);
    let k = choose|k: int| 0 <= k < el.len() && el[k] == filtered[j];
    assert(el[k] == (a, mapped[j].0, mapped[j].1));
}

/// Each edge of the graph's list with source `a` shows up in the outgoing
/// list of `a`.
pub proof fn lemma_out_edge_complete(g: petgraph::graph::Graph<usize, EdgeType>, a: usize, k: int)
    requires
        0 <= k < graph_edge_list(g).len(),
        graph_edge_list(g)[k].0 == a,
    ensures
        exists|i: int|
            0 <= i < out_edge_list(g, a).len() && (#[trigger] out_edge_list(g, a)[i]).0
                == graph_edge_list(g)[k].1,
{
    let el = graph_edge_list(g);
    let filtered = el.filter(edge_from(a));
    let mapped = filtered.map_values(drop_source());
    el.lemma_filter_contains(edge_from(a), k);
    let j = choose|j: int| 0 <= j < filtered.len() && filtered[j] == el[k];
    let i = mapped.len() - 1 - j;
    assert(out_edge_list(g, a)[i] == mapped[j]);
    assert(mapped[j].0 == el[k].1);
}

/// A node that no edge enters has in-degree zero.
pub proof fn lemma_in_degree_of_absent(g: petgraph::graph::Graph<usize, EdgeType>, a: usize)
    requires
        forall|k: int|
            0 <= k < graph_edge_list(g).len() ==> (#[trigger] graph_edge_list(g)[k]).1 != a,
    ensures
        in_degree_of(g, a) == 0,
{
    lemma_filter_no_match(graph_edge_list(g), edge_into(a));
}

/// Appending an edge adds one to the in-degree of its target and leaves every
/// other in-degree unchanged.
pub proof fn lemma_in_degree_of_push(
    g1: petgraph::graph::Graph<usize, EdgeType>,
    g2: petgraph::graph::Graph<usize, EdgeType>,
    e: (usize, usize, EdgeType),
    a: usize,
)
    requires
        graph_edge_list(g2) == graph_edge_list(g1).push(e),
    ensures
        in_degree_of(g2, a) == in_degree_of(g1, a) + (if e.1 == a {
            1nat
        } else {
            0nat
        }),
{
    reveal(Seq::filter);
    assert(graph_edge_list(g2).drop_last() =~= graph_edge_list(g1));
    assert(graph_edge_list(g2).last() == e);
}

/// Relies on petgraph's `Graph::new`: the new graph has no nodes and no edges.
#[verifier::external_body]
pub(crate) fn pg_new() -> (g: petgraph::graph::Graph<usize, EdgeType>)
    ensures
        graph_node_count(g) == 0,
        graph_edge_list(g) == Seq::<(usize, usize, EdgeType)>::empty(),
{
    petgraph::graph::Graph::new()
}

/// Relies on petgraph's `Graph::add_node`: it appends one node and returns its
/// index, which equals the old node count; it panics only when the node count
/// has reached the index type's maximum, which the precondition rules out.
#[verifier::external_body]
pub(crate) fn pg_add_node(g: &mut petgraph::graph::Graph<usize, EdgeType>, weight: usize) -> (r:
    usize)
    requires
        graph_node_count(*old(g)) < u32::MAX as nat,
    ensures
        graph_node_count(*final(g)) == graph_node_count(*old(g)) + 1,
        graph_edge_list(*final(g)) == graph_edge_list(*old(g)),
        r as nat == graph_node_count(*old(g)),
{
    g.add_node(weight).index()
}

/// Relies on petgraph's `Graph::add_edge`: it appends one edge from `a` to
/// `b`; it panics only on an endpoint that is out of bounds or when the edge
/// count has reached the index type's maximum, which the precondition rules
/// out.
#[verifier::external_body]
pub(crate) fn pg_add_edge(
    g: &mut petgraph::graph::Graph<usize, EdgeType>,
    a: usize,
    b: usize,
    label: EdgeType,
)
    requires
        a < graph_node_count(*old(g)),
        b < graph_node_count(*old(g)),
        graph_edge_list(*old(g)).len() < u32::MAX as nat,
    ensures
        graph_node_count(*final(g)) == graph_node_count(*old(g)),
        graph_edge_list(*final(g)) == graph_edge_list(*old(g)).push((a, b, label)),
{
    g.add_edge(
        petgraph::graph::NodeIndex::new(a),
        petgraph::graph::NodeIndex::new(b),
        label,
    );
}

/// Relies on petgraph's `Graph::node_count`.
#[verifier::external_body]
pub(crate) fn pg_node_count(g: &petgraph::graph::Graph<usize, EdgeType>) -> (r: usize)
    ensures
        r as nat == graph_node_count(*g),
{
    g.node_count()
}

/// Relies on petgraph's `Graph::edges_directed` with `Outgoing`: for a directed
/// graph it yields exactly the outgoing edges of `a`, the most recently
/// inserted first.
#[verifier::external_body]
pub(crate) fn pg_out_edges(g: &petgraph::graph::Graph<usize, EdgeType>, a: usize) -> (r: Vec<
    (usize, EdgeType),
>)
    requires
        a < graph_node_count(*g),
    ensures
        r@ == out_edge_list(*g, a),
{
    g.edges_directed(petgraph::graph::NodeIndex::new(a), petgraph::Direction::Outgoing).map(
        |e| (petgraph::visit::EdgeRef::target(&e).index(), *petgraph::visit::EdgeRef::weight(&e)),
    ).collect()
}

/// Relies on petgraph's `Graph::neighbors_directed` with `Incoming`: for a
/// directed graph it yields one item per incoming edge of `a`.
#[verifier::external_body]
pub(crate) fn pg_in_degree(g: &petgraph::graph::Graph<usize, EdgeType>, a: usize) -> (r: usize)
    requires
        a < graph_node_count(*g),
    ensures
        r as nat == in_degree_of(*g, a),
{
    g.neighbors_directed(petgraph::graph::NodeIndex::new(a), petgraph::Direction::Incoming).count()
}

} // verus!
