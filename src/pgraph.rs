//! The graph store: petgraph's `StableGraph`, seen through two names for its
//! contents and one wrapper for each of its functions that the library calls.

use petgraph::stable_graph::{EdgeIndex, NodeIndex, StableGraph};
use petgraph::visit::{Bfs, Dfs, EdgeRef, Topo, Walker};
use petgraph::{Directed, Direction};
use vstd::prelude::*;

verus! {

#[verifier::external_type_specification]
#[verifier::external_body]
#[verifier::reject_recursive_types(N)]
#[verifier::reject_recursive_types(E)]
#[verifier::reject_recursive_types(Ty)]
#[verifier::reject_recursive_types(Ix)]
pub struct ExStableGraph<N, E, Ty, Ix>(StableGraph<N, E, Ty, Ix>);

#[verifier::external_type_specification]
#[verifier::external_body]
pub struct ExDirected(Directed);

/// A directed stable graph whose node and edge weights are indices into
/// tables kept beside it, with `usize` indices.
pub type Pg = StableGraph<usize, usize, Directed, usize>;

/// The nodes of a graph: each present node index, with its weight.
pub uninterp spec fn pg_nodes(g: Pg) -> Map<nat, nat>;

/// The edges of a graph: each present edge index, with its source, target and
/// weight.
pub uninterp spec fn pg_edges(g: Pg) -> Map<nat, (nat, nat, nat)>;

/// The number of node slots of a graph: its present nodes and the vacant
/// slots that removed nodes left behind.
pub uninterp spec fn pg_node_slots(g: Pg) -> nat;

/// Whether some edge of `g` leads from `a` to `b`.
pub open spec fn pg_has_edge(g: Pg, a: nat, b: nat) -> bool {
    exists|e: nat| #[trigger]
        pg_edges(g).contains_key(e) && pg_edges(g)[e].0 == a && pg_edges(g)[e].1 == b
}

/// The edges of `g` as pairs of node indices.
pub open spec fn pg_edge_set(g: Pg) -> Set<(nat, nat)> {
    Set::new(|p: (nat, nat)| pg_has_edge(g, p.0, p.1))
}

/// `v` is at most `d` edges of `es` away from `s`.
pub open spec fn within(es: Set<(nat, nat)>, s: nat, v: nat, d: nat) -> bool
    decreases d,
{
    v == s || (d > 0 && exists|u: nat| #[trigger]
        es.contains((u, v)) && within(es, s, u, (d - 1) as nat))
}

/// `v` can be reached from `s` along the edges `es`.
pub open spec fn reaches(es: Set<(nat, nat)>, s: nat, v: nat) -> bool {
    exists|d: nat| within(es, s, v, d)
}

/// Relies on `StableGraph::with_capacity`: a new graph has no nodes and no
/// edges.
#[verifier::external_body]
pub(crate) fn pg_new() -> (r: Pg)
    ensures
        pg_nodes(r).dom() == Set::<nat>::empty(),
        pg_edges(r).dom() == Set::<nat>::empty(),
        pg_node_slots(r) == 0,
{
    StableGraph::with_capacity(0, 0)
}

/// Relies on `StableGraph::add_node`: the new node gets an index that no
/// present node has, and the edges stay as they were. With `usize` indices
/// there is no limit on the number of nodes; an index is a slot of the node
/// vector, whose length stays below `usize::MAX`. Where no slot is vacant,
/// the node takes a new slot at the end.
#[verifier::external_body]
pub(crate) fn pg_add_node(g: &mut Pg, w: usize) -> (r: usize)
    ensures
        !pg_nodes(*old(g)).contains_key(r as nat),
        r < usize::MAX,
        pg_nodes(*old(g)).dom().len() == pg_node_slots(*old(g)) ==> r == pg_node_slots(*old(g))
            && pg_node_slots(*final(g)) == pg_node_slots(*old(g)) + 1,
        pg_nodes(*final(g)) == pg_nodes(*old(g)).insert(r as nat, w as nat),
        pg_edges(*final(g)) == pg_edges(*old(g)),
{
    g.add_node(w).index()
}

/// Relies on `StableGraph::add_edge`: the new edge gets an index that no
/// present edge has, and the nodes stay as they were. It panics only when an
/// endpoint is missing.
#[verifier::external_body]
pub(crate) fn pg_add_edge(g: &mut Pg, a: usize, b: usize, w: usize) -> (r: usize)
    requires
        pg_nodes(*old(g)).contains_key(a as nat),
        pg_nodes(*old(g)).contains_key(b as nat),
    ensures
        !pg_edges(*old(g)).contains_key(r as nat),
        pg_edges(*final(g)) == pg_edges(*old(g)).insert(r as nat, (a as nat, b as nat, w as nat)),
        pg_nodes(*final(g)) == pg_nodes(*old(g)),
        pg_node_slots(*final(g)) == pg_node_slots(*old(g)),
{
    g.add_edge(NodeIndex::new(a), NodeIndex::new(b), w).index()
}

/// Relies on `StableGraph::find_edge`: an edge from `a` to `b` if there is
/// one.
#[verifier::external_body]
pub(crate) fn pg_find_edge(g: &Pg, a: usize, b: usize) -> (r: Option<usize>)
    ensures
        match r {
            Some(e) => pg_edges(*g).contains_key(e as nat) && pg_edges(*g)[e as nat].0 == a
                && pg_edges(*g)[e as nat].1 == b,
            None => !pg_has_edge(*g, a as nat, b as nat),
        },
{
    g.find_edge(NodeIndex::new(a), NodeIndex::new(b)).map(|e| e.index())
}

/// Relies on `StableGraph::node_weight`: the weight of node `a`, if present.
#[verifier::external_body]
pub(crate) fn pg_node_weight(g: &Pg, a: usize) -> (r: Option<usize>)
    ensures
        match r {
            Some(w) => pg_nodes(*g).contains_key(a as nat) && pg_nodes(*g)[a as nat] == w,
            None => !pg_nodes(*g).contains_key(a as nat),
        },
{
    g.node_weight(NodeIndex::new(a)).copied()
}

/// Relies on `StableGraph::edge_weight`: the weight of edge `e`, if present.
#[verifier::external_body]
pub(crate) fn pg_edge_weight(g: &Pg, e: usize) -> (r: Option<usize>)
    ensures
        match r {
            Some(w) => pg_edges(*g).contains_key(e as nat) && pg_edges(*g)[e as nat].2 == w,
            None => !pg_edges(*g).contains_key(e as nat),
        },
{
    g.edge_weight(EdgeIndex::new(e)).copied()
}

/// Relies on `StableGraph::remove_node`: node `a` leaves with every edge at
/// either end of it; the other nodes and edges keep their indices and weights.
#[verifier::external_body]
pub(crate) fn pg_remove_node(g: &mut Pg, a: usize) -> (r: Option<usize>)
    ensures
        pg_nodes(*final(g)) == pg_nodes(*old(g)).remove(a as nat),
        pg_edges(*final(g)) == pg_edges(*old(g)).restrict(
            pg_edges(*old(g)).dom().filter(
                |e: nat| pg_edges(*old(g))[e].0 != a as nat && pg_edges(*old(g))[e].1 != a as nat,
            ),
        ),
        match r {
            Some(w) => pg_nodes(*old(g)).contains_key(a as nat) && pg_nodes(*old(g))[a as nat] == w,
            None => !pg_nodes(*old(g)).contains_key(a as nat),
        },
{
    g.remove_node(NodeIndex::new(a))
}

/// Relies on `StableGraph::edges_directed`: each edge that leaves `a` (with
/// `outgoing`) or enters `a` (without), once, as its index and the node at its
/// other end.
#[verifier::external_body]
pub(crate) fn pg_edges_at(g: &Pg, a: usize, outgoing: bool) -> (r: Vec<(usize, usize)>)
    ensures
        forall|i: int|
            #![trigger r@[i]]
            0 <= i < r@.len() ==> {
                let e = r@[i].0 as nat;
                &&& pg_edges(*g).contains_key(e)
                &&& outgoing ==> pg_edges(*g)[e].0 == a && pg_edges(*g)[e].1 == r@[i].1
                &&& !outgoing ==> pg_edges(*g)[e].1 == a && pg_edges(*g)[e].0 == r@[i].1
            },
        forall|i: int, j: int| 0 <= i < j < r@.len() ==> r@[i].0 != r@[j].0,
        forall|e: nat|
            #![trigger pg_edges(*g)[e]]
            pg_edges(*g).contains_key(e) && (if outgoing {
                pg_edges(*g)[e].0 == a
            } else {
                pg_edges(*g)[e].1 == a
            }) ==> exists|i: int| 0 <= i < r@.len() && r@[i].0 == e,
{
    let dir = if outgoing { Direction::Outgoing } else { Direction::Incoming };
    g.edges_directed(NodeIndex::new(a), dir).map(
        |e| (e.id().index(), if outgoing { e.target().index() } else { e.source().index() }),
    ).collect()
}

/// Relies on `StableGraph::node_indices`: the present nodes, in increasing
/// order.
#[verifier::external_body]
pub(crate) fn pg_node_indices(g: &Pg) -> (r: Vec<usize>)
    ensures
        forall|i: int, j: int| 0 <= i < j < r@.len() ==> r@[i] < r@[j],
        forall|v: nat| pg_nodes(*g).contains_key(v) <==> exists|i: int| 0 <= i < r@.len() && r@[i] == v,
{
    g.node_indices().map(|i| i.index()).collect()
}

/// Relies on `StableGraph::node_count`: the number of present nodes.
#[verifier::external_body]
pub(crate) fn pg_node_count(g: &Pg) -> (r: usize)
    ensures
        r == pg_nodes(*g).dom().len(),
{
    g.node_count()
}

/// Relies on `Topo`: nodes in topological order. Each present node comes at
/// most once, after every node with an edge into it; a node is left out only
/// when some node with an edge into it is left out too (so, on a graph without
/// cycles, none is).
#[verifier::external_body]
pub(crate) fn pg_topo(g: &Pg) -> (r: Vec<usize>)
    ensures
        forall|i: int| 0 <= i < r@.len() ==> pg_nodes(*g).contains_key(#[trigger] r@[i] as nat),
        forall|i: int, j: int| 0 <= i < j < r@.len() ==> r@[i] != r@[j],
        forall|j: int, u: nat|
            0 <= j < r@.len() && #[trigger] pg_has_edge(*g, u, r@[j] as nat) ==> exists|i: int|
                0 <= i < j && r@[i] == u,
        forall|v: nat|
            pg_nodes(*g).contains_key(v) && !r@.contains(v as usize) ==> exists|u: nat|
                #[trigger] pg_has_edge(*g, u, v) && !r@.contains(u as usize),
{
    Topo::new(g).iter(g).map(|i| i.index()).collect()
}

/// Relies on `Dfs`: starting at the present node `s`, each node that can be
/// reached from it, once, `s` first.
#[verifier::external_body]
pub(crate) fn pg_dfs(g: &Pg, s: usize) -> (r: Vec<usize>)
    requires
        pg_nodes(*g).contains_key(s as nat),
    ensures
        r@.len() > 0 && r@[0] == s,
        forall|i: int, j: int| 0 <= i < j < r@.len() ==> r@[i] != r@[j],
        forall|v: nat| #[trigger] reaches(pg_edge_set(*g), s as nat, v) <==> exists|i: int| 0 <= i < r@.len() && r@[i] as nat == v,
{
    Dfs::new(g, NodeIndex::new(s)).iter(g).map(|i| i.index()).collect()
}

/// Relies on `Bfs`: starting at the present node `s`, each node that can be
/// reached from it, once, `s` first.
#[verifier::external_body]
pub(crate) fn pg_bfs(g: &Pg, s: usize) -> (r: Vec<usize>)
    requires
        pg_nodes(*g).contains_key(s as nat),
    ensures
        r@.len() > 0 && r@[0] == s,
        forall|i: int, j: int| 0 <= i < j < r@.len() ==> r@[i] != r@[j],
        forall|v: nat| #[trigger] reaches(pg_edge_set(*g), s as nat, v) <==> exists|i: int| 0 <= i < r@.len() && r@[i] as nat == v,
{
    Bfs::new(g, NodeIndex::new(s)).iter(g).map(|i| i.index()).collect()
}

} // verus!
