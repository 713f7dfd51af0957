//! The dependency graph: crates as nodes, dependency relations as edges, a
//! root, and an optional synthetic `std` node.

use crate::pgraph::{
    pg_node_slots,
    pg_add_node, pg_bfs, pg_dfs, pg_edge_set, pg_edge_weight, pg_edges, pg_find_edge, pg_has_edge, pg_edges_at, pg_node_count, pg_node_indices,
    pg_node_weight, pg_nodes, pg_remove_node, pg_topo, reaches, within, Pg,
};
use crate::tree::chars_of;
use vstd::prelude::*;

verus! {

/// The feature-enablement map of a crate or of a dependency edge: each
/// feature name, once, with the features it enables, keys in increasing byte
/// order (for parsed graphs, `machine::lemma_parse_ordered`).
pub type FeatureMap = Vec<(String, Vec<String>)>;

/// A crate: its short name (hyphens written as underscores), the rest of its
/// listing (version, path), and the features it enables of itself.
pub struct NodeWeight {
    short: String,
    extra: String,
    full: String,
    features: FeatureMap,
}

impl NodeWeight {
    pub closed spec fn short_spec(&self) -> Seq<char> {
        self.short@
    }

    pub closed spec fn extra_spec(&self) -> Seq<char> {
        self.extra@
    }

    pub closed spec fn full_spec(&self) -> Seq<char> {
        self.full@
    }

    pub closed spec fn features_spec(&self) -> FeatureMap {
        self.features
    }

    /// The crate named `short`, with the rest of its listing `extra`.
    pub fn new(short: String, extra: String, features: FeatureMap) -> (r: Self)
        ensures
            r.short_spec() == short@,
            r.extra_spec() == extra@,
            r.full_spec() == short@ + seq![' '] + extra@,
            r.features_spec() == features,
    {
        let mut full = short.clone();
        full.append(" ");
        full.append(extra.as_str());
        proof {
            reveal_strlit(" ");
            assert(full@ =~= short@ + seq![' '] + extra@);
        }
        NodeWeight { short, extra, full, features }
    }

    /// The short name.
    pub fn short(&self) -> (r: &str)
        ensures
            r@ == self.short_spec(),
    {
        self.short.as_str()
    }

    /// The rest of the listing after the short name: version, path.
    pub fn extra(&self) -> (r: &str)
        ensures
            r@ == self.extra_spec(),
    {
        self.extra.as_str()
    }

    /// The short name, a space, and the rest of the listing.
    pub fn full(&self) -> (r: &str)
        ensures
            r@ == self.full_spec(),
    {
        self.full.as_str()
    }

    /// The features of this crate, each with the sub-features it enables.
    pub fn features(&self) -> (r: &FeatureMap)
        ensures
            *r == self.features_spec(),
    {
        &self.features
    }

    pub(crate) fn features_mut(&mut self) -> (r: &mut FeatureMap)
        ensures
            *r == old(self).features_spec(),
            final(self).short_spec() == old(self).short_spec(),
            final(self).extra_spec() == old(self).extra_spec(),
            final(self).full_spec() == old(self).full_spec(),
            final(self).features_spec() == *final(r),
    {
        &mut self.features
    }
}

/// A dependency relation: which features of the dependent enable which
/// features of the dependency.
pub struct EdgeWeight {
    pub(crate) features: FeatureMap,
}

impl EdgeWeight {
    /// The relation whose features are `features`.
    pub fn new(features: FeatureMap) -> (r: Self)
        ensures
            r.features_spec() == features,
    {
        EdgeWeight { features }
    }

    pub closed spec fn features_spec(&self) -> FeatureMap {
        self.features
    }

    /// Each feature of the dependent, with the features of the dependency it
    /// enables.
    pub fn features(&self) -> (r: &FeatureMap)
        ensures
            *r == self.features_spec(),
    {
        &self.features
    }
}

/// What a graph is, seen from outside: its node indices, its edges as pairs of
/// node indices (source depends on target), its root and its `std` node.
#[verifier::ext_equal]
pub struct GraphView {
    pub nodes: Set<nat>,
    pub edges: Set<(nat, nat)>,
    pub root: nat,
    pub std: Option<nat>,
}

impl GraphView {
    /// The numbering `rank` grows along every edge.
    pub open spec fn ranked_by(self, rank: spec_fn(nat) -> nat) -> bool {
        forall|a: nat, b: nat| #[trigger] self.edges.contains((a, b)) ==> rank(a) < rank(b)
    }

    /// Some numbering of the nodes grows along every edge: the graph has no
    /// cycle, and admits a topological order.
    pub open spec fn acyclic(self) -> bool {
        exists|rank: spec_fn(nat) -> nat| #[trigger] self.ranked_by(rank)
    }

    pub open spec fn wf(self) -> bool {
        &&& self.nodes.finite()
        &&& forall|a: nat, b: nat| #[trigger]
            self.edges.contains((a, b)) ==> self.nodes.contains(a) && self.nodes.contains(b) && a
                != b
        &&& self.nodes.contains(self.root)
        &&& match self.std {
            Some(s) => self.nodes.contains(s) && forall|a: nat, b: nat| #[trigger]
                self.edges.contains((a, b)) ==> a != s && b != s,
            None => true,
        }
        &&& self.acyclic()
    }

    /// The nodes that `keep` selects, with the edges between them.
    pub open spec fn restrict(self, keep: spec_fn(nat) -> bool) -> GraphView {
        GraphView {
            nodes: self.nodes.filter(keep),
            edges: self.edges.filter(|p: (nat, nat)| keep(p.0) && keep(p.1)),
            root: self.root,
            std: self.std,
        }
    }

    /// The graph without the nodes of `gone` and their edges.
    pub open spec fn without(self, gone: Set<nat>) -> GraphView {
        self.restrict(|v: nat| !gone.contains(v))
    }

    /// The same graph with `r` as its root.
    pub open spec fn rerooted(self, r: nat) -> GraphView {
        GraphView { nodes: self.nodes, edges: self.edges, root: r, std: self.std }
    }

    /// Whether pruning keeps `v`: it is reachable from the root, or it is the
    /// `std` node.
    pub open spec fn kept(self, v: nat) -> bool {
        reaches(self.edges, self.root, v) || self.std == Some(v)
    }

    /// The graph without the nodes that cannot be reached from the root.
    pub open spec fn pruned(self) -> GraphView {
        self.restrict(|v: nat| self.kept(v))
    }

    /// Every node but `std` can be reached from the root.
    pub open spec fn all_reachable(self) -> bool {
        forall|v: nat|
            self.nodes.contains(v) && self.std != Some(v) ==> #[trigger] reaches(
                self.edges,
                self.root,
                v,
            )
    }

    /// The graph without the nodes more than `d` edges away from the root.
    pub open spec fn depth_limited(self, d: nat) -> GraphView {
        self.restrict(|v: nat| within(self.edges, self.root, v, d) || self.std == Some(v))
    }

    /// The direct dependencies of `v`.
    pub open spec fn children(self, v: nat) -> Set<nat> {
        Set::new(|t: nat| self.edges.contains((v, t)))
    }

    /// The direct dependents of `v`.
    pub open spec fn parents(self, v: nat) -> Set<nat> {
        Set::new(|p: nat| self.edges.contains((p, v)))
    }
}

/// A dependency graph with its per-crate size table.
pub struct Graph {
    inner: Pg,
    weights: Vec<NodeWeight>,
    edge_weights: Vec<EdgeWeight>,
    size_map: Vec<(String, usize)>,
    std: Option<usize>,
    root: usize,
    rank: Ghost<spec_fn(nat) -> nat>,
}

impl View for Graph {
    type V = GraphView;

    closed spec fn view(&self) -> GraphView {
        GraphView {
            nodes: pg_nodes(self.inner).dom(),
            edges: pg_edge_set(self.inner),
            root: self.root as nat,
            std: match self.std {
                Some(s) => Some(s as nat),
                None => None,
            },
        }
    }
}

/// After removing node `a`, the edges are those that did not touch it.
proof fn lemma_remove_node_edges(g0: Pg, g1: Pg, a: nat)
    requires
        pg_edges(g1) == pg_edges(g0).restrict(
            pg_edges(g0).dom().filter(|e: nat| pg_edges(g0)[e].0 != a && pg_edges(g0)[e].1 != a),
        ),
    ensures
        pg_edge_set(g1) == pg_edge_set(g0).filter(|p: (nat, nat)| p.0 != a && p.1 != a),
{
    assert forall|p: (nat, nat)| #[trigger]
        pg_edge_set(g1).contains(p) <==> pg_edge_set(g0).contains(p) && p.0 != a && p.1 != a by {
        if pg_edge_set(g1).contains(p) {
            let e = choose|e: nat|
                #[trigger] pg_edges(g1).contains_key(e) && pg_edges(g1)[e].0 == p.0
                    && pg_edges(g1)[e].1 == p.1;
            assert(pg_edges(g0).contains_key(e));
        }
        if pg_edge_set(g0).contains(p) && p.0 != a && p.1 != a {
            let e = choose|e: nat|
                #[trigger] pg_edges(g0).contains_key(e) && pg_edges(g0)[e].0 == p.0
                    && pg_edges(g0)[e].1 == p.1;
            assert(pg_edges(g1).contains_key(e));
        }
    }
    assert(pg_edge_set(g1) =~= pg_edge_set(g0).filter(|p: (nat, nat)| p.0 != a && p.1 != a));
}

/// A node reached from `s` along edges between nodes is a node, or `s`.
pub proof fn lemma_within_node(es: Set<(nat, nat)>, nodes: Set<nat>, s: nat, v: nat, d: nat)
    requires
        within(es, s, v, d),
        forall|a: nat, b: nat| #[trigger] es.contains((a, b)) ==> nodes.contains(b),
    ensures
        v == s || nodes.contains(v),
    decreases d,
{
}

/// Paths from the root survive when every reachable node is kept.
pub proof fn lemma_within_restrict(g: GraphView, keep: spec_fn(nat) -> bool, v: nat, d: nat)
    requires
        within(g.edges, g.root, v, d),
        forall|u: nat| #[trigger] reaches(g.edges, g.root, u) ==> keep(u),
    ensures
        within(g.restrict(keep).edges, g.root, v, d),
    decreases d,
{
    if v != g.root {
        let u = choose|u: nat| #[trigger]
            g.edges.contains((u, v)) && within(g.edges, g.root, u, (d - 1) as nat);
        lemma_within_restrict(g, keep, u, (d - 1) as nat);
        assert(reaches(g.edges, g.root, u));
        assert(reaches(g.edges, g.root, v));
        assert(g.restrict(keep).edges.contains((u, v)));
    }
}

/// Whether `keep` (or being the `std` node) keeps node `v`.
pub open spec fn kept_by(keep: Seq<bool>, std: Option<nat>, v: nat) -> bool {
    (v < keep.len() && keep[v as int]) || std == Some(v)
}

/// A node reached from the root along edges between nodes is a node.
pub proof fn lemma_reaches_node(g: GraphView, v: nat)
    requires
        g.wf(),
        reaches(g.edges, g.root, v),
    ensures
        g.nodes.contains(v),
{
    let d = choose|d: nat| within(g.edges, g.root, v, d);
    lemma_within_node(g.edges, g.nodes, g.root, v, d);
}

/// Restricting a graph to the nodes that two predicates both keep, one after
/// the other, is restricting it to their conjunction.
proof fn lemma_restrict_twice(g: GraphView, f1: spec_fn(nat) -> bool, f2: spec_fn(nat) -> bool)
    ensures
        g.restrict(f1).restrict(f2) =~= g.restrict(|v: nat| f1(v) && f2(v)),
{
    assert(g.restrict(f1).restrict(f2).nodes =~= g.restrict(|v: nat| f1(v) && f2(v)).nodes);
    assert(g.restrict(f1).restrict(f2).edges =~= g.restrict(|v: nat| f1(v) && f2(v)).edges);
}

/// Two predicates that agree on the nodes restrict a well-formed graph alike.
proof fn lemma_restrict_same(g: GraphView, f1: spec_fn(nat) -> bool, f2: spec_fn(nat) -> bool)
    requires
        g.wf(),
        forall|v: nat| g.nodes.contains(v) ==> f1(v) == f2(v),
    ensures
        g.restrict(f1) =~= g.restrict(f2),
{
    assert(g.restrict(f1).nodes =~= g.restrict(f2).nodes);
    assert(g.restrict(f1).edges =~= g.restrict(f2).edges);
}

/// A path along a subset of the edges is a path along all of them.
pub proof fn lemma_within_subset(small: Set<(nat, nat)>, big: Set<(nat, nat)>, s: nat, v: nat, d: nat)
    requires
        within(small, s, v, d),
        small.subset_of(big),
    ensures
        within(big, s, v, d),
    decreases d,
{
    if v != s {
        let u = choose|u: nat| #[trigger] small.contains((u, v)) && within(small, s, u, (d - 1) as nat);
        lemma_within_subset(small, big, s, u, (d - 1) as nat);
        assert(big.contains((u, v)));
    }
}

/// In a pruned graph, every node but `std` can be reached from the root, and
/// exactly as in the graph before pruning.
pub proof fn lemma_pruned_reaches(g: GraphView, v: nat)
    ensures
        reaches(g.pruned().edges, g.root, v) <==> reaches(g.edges, g.root, v),
{
    if reaches(g.edges, g.root, v) {
        let d = choose|d: nat| within(g.edges, g.root, v, d);
        lemma_within_restrict(g, |x: nat| g.kept(x), v, d);
    }
    if reaches(g.pruned().edges, g.root, v) {
        let d = choose|d: nat| within(g.pruned().edges, g.root, v, d);
        lemma_within_subset(g.pruned().edges, g.edges, g.root, v, d);
    }
}

/// Pruning leaves a graph in which every node but `std` can be reached from
/// the root.
pub proof fn lemma_pruned_all_reachable(g: GraphView)
    ensures
        g.pruned().all_reachable(),
{
    assert forall|v: nat|
        g.pruned().nodes.contains(v) && g.pruned().std != Some(v) implies #[trigger] reaches(
        g.pruned().edges,
        g.pruned().root,
        v,
    ) by {
        lemma_pruned_reaches(g, v);
    }
}

/// Pruning is idempotent: pruning a pruned graph changes nothing.
pub proof fn lemma_prune_idempotent(g: GraphView)
    ensures
        g.pruned().pruned() == g.pruned(),
{
    let p = g.pruned();
    assert forall|v: nat| p.nodes.contains(v) implies p.kept(v) by {
        lemma_pruned_reaches(g, v);
    }
    assert forall|a: nat, b: nat| #[trigger] p.edges.contains((a, b)) implies p.kept(a) && p.kept(b) by {
        lemma_pruned_reaches(g, a);
        lemma_pruned_reaches(g, b);
    }
    assert(p.pruned().nodes =~= p.nodes);
    assert(p.pruned().edges =~= p.edges);
}

/// After removing the node `x` (and pruning), `x` is gone and every remaining
/// node but `std` can be reached from the root.
pub proof fn lemma_remove_reachability(g: GraphView, x: nat)
    ensures
        g.without(set![x]).pruned().all_reachable(),
        !g.without(set![x]).pruned().nodes.contains(x),
{
    lemma_pruned_all_reachable(g.without(set![x]));
}

/// Re-rooting at `r` (and pruning) keeps exactly the nodes reachable from `r`
/// before, and `std`; a traversal from the new root meets exactly the nodes
/// that were reachable from `r`.
pub proof fn lemma_reroot(g: GraphView, r: nat)
    ensures
        g.rerooted(r).pruned().nodes == g.nodes.filter(|v: nat| reaches(g.edges, r, v) || g.std == Some(v)),
        forall|v: nat| #[trigger] reaches(g.rerooted(r).pruned().edges, r, v) <==> reaches(g.edges, r, v),
{
    assert(g.rerooted(r).pruned().nodes =~= g.nodes.filter(|v: nat| reaches(g.edges, r, v) || g.std == Some(v)));
    assert forall|v: nat| #[trigger] reaches(g.rerooted(r).pruned().edges, r, v) <==> reaches(g.edges, r, v) by {
        lemma_pruned_reaches(g.rerooted(r), v);
    }
}

/// `v` is exactly `d` edges away from `s`.
pub open spec fn at_depth(es: Set<(nat, nat)>, s: nat, v: nat, d: nat) -> bool {
    within(es, s, v, d) && (d == 0 || !within(es, s, v, (d - 1) as nat))
}

/// Some node of `from` has an edge to `v`.
pub open spec fn hit(es: Set<(nat, nat)>, from: Set<nat>, v: nat) -> bool {
    exists|u: nat| from.contains(u) && #[trigger] es.contains((u, v))
}

/// What is within `d` edges is within `d + 1`.
pub proof fn lemma_within_mono(es: Set<(nat, nat)>, s: nat, v: nat, d: nat)
    requires
        within(es, s, v, d),
    ensures
        within(es, s, v, d + 1),
    decreases d,
{
    if v != s {
        let u = choose|u: nat| #[trigger] es.contains((u, v)) && within(es, s, u, (d - 1) as nat);
        lemma_within_mono(es, s, u, (d - 1) as nat);
    }
}

/// What is within `d` edges is within any `e >= d`.
pub proof fn lemma_within_mono_to(es: Set<(nat, nat)>, s: nat, v: nat, d: nat, e: nat)
    requires
        within(es, s, v, d),
        d <= e,
    ensures
        within(es, s, v, e),
    decreases e - d,
{
    if d < e {
        lemma_within_mono(es, s, v, d);
        lemma_within_mono_to(es, s, v, d + 1, e);
    }
}

/// One more layer: within `d + 1` edges is within `d`, or one edge from a node
/// exactly `d` away.
pub proof fn lemma_within_step(es: Set<(nat, nat)>, s: nat, v: nat, d: nat)
    ensures
        within(es, s, v, d + 1) <==> within(es, s, v, d) || hit(
            es,
            Set::new(|u: nat| at_depth(es, s, u, d)),
            v,
        ),
{
    let layer = Set::new(|u: nat| at_depth(es, s, u, d));
    if within(es, s, v, d) {
        lemma_within_mono(es, s, v, d);
    }
    if hit(es, layer, v) {
        let u = choose|u: nat| layer.contains(u) && #[trigger] es.contains((u, v));
        assert(within(es, s, u, d));
    }
    if within(es, s, v, d + 1) && !within(es, s, v, d) {
        let u = choose|u: nat| #[trigger] es.contains((u, v)) && within(es, s, u, d);
        if d > 0 && within(es, s, u, (d - 1) as nat) {
            assert(within(es, s, v, d));
        }
        assert(layer.contains(u));
    }
}

/// When no node is exactly `d` away, nothing is farther.
pub proof fn lemma_within_stable(es: Set<(nat, nat)>, s: nat, v: nat, d: nat, e: nat)
    requires
        d <= e,
        within(es, s, v, e),
        forall|u: nat| !at_depth(es, s, u, d),
    ensures
        within(es, s, v, d),
    decreases e,
{
    if e > d && v != s {
        let u = choose|u: nat| #[trigger] es.contains((u, v)) && within(es, s, u, (e - 1) as nat);
        lemma_within_stable(es, s, u, d, (e - 1) as nat);
        assert(!at_depth(es, s, u, d));
        if d == 0 {
            assert(at_depth(es, s, s, 0));
        }
        assert(within(es, s, u, (d - 1) as nat));
    }
}

/// The byte count that `table` gives for `name`: its first entry with that
/// name.
pub open spec fn lookup_size(table: Seq<(Seq<char>, usize)>, name: Seq<char>) -> Option<usize>
    decreases table.len(),
{
    if table.len() == 0 {
        None
    } else if table[0].0 == name {
        Some(table[0].1)
    } else {
        lookup_size(table.drop_first(), name)
    }
}

/// A list without repeats names as many nodes as it is long.
pub proof fn lemma_index_set_len(s: Seq<usize>)
    requires
        forall|i: int, j: int| 0 <= i < j < s.len() ==> s[i] != s[j],
    ensures
        index_set(s).finite(),
        index_set(s).len() == s.len(),
    decreases s.len(),
{
    if s.len() == 0 {
        assert(index_set(s) =~= Set::empty());
    } else {
        let t = s.drop_last();
        lemma_index_set_len(t);
        assert(index_set(s) =~= index_set(t).insert(s.last() as nat)) by {
            assert forall|v: nat| index_set(s).contains(v) implies index_set(t).insert(s.last() as nat).contains(v) by {
                let i = choose|i: int| 0 <= i < s.len() && s[i] as nat == v;
                if i < s.len() - 1 {
                    assert(t[i] as nat == v);
                }
            }
            assert forall|v: nat| index_set(t).contains(v) implies index_set(s).contains(v) by {
                let i = choose|i: int| 0 <= i < t.len() && t[i] as nat == v;
                assert(s[i] as nat == v);
            }
        }
        assert(!index_set(t).contains(s.last() as nat)) by {
            if index_set(t).contains(s.last() as nat) {
                let i = choose|i: int| 0 <= i < t.len() && t[i] as nat == s.last() as nat;
                assert(s[i] == s[s.len() - 1]);
            }
        }
    }
}

/// The first entry of `idx` that `order` leaves out, if any.
fn first_missing(order: &Vec<usize>, idx: &Vec<usize>) -> (r: Option<usize>)
    ensures
        match r {
            Some(v) => idx@.contains(v) && !order@.contains(v),
            None => forall|k: int| 0 <= k < idx@.len() ==> order@.contains(#[trigger] idx@[k]),
        },
{
    let mut j: usize = 0;
    while j < idx.len()
        invariant
            j <= idx@.len(),
            forall|k: int| 0 <= k < j ==> order@.contains(#[trigger] idx@[k]),
        decreases idx.len() - j,
    {
        let v = idx[j];
        let mut found = false;
        let mut i: usize = 0;
        while i < order.len()
            invariant
                i <= order@.len(),
                found <==> exists|k: int| 0 <= k < i && order@[k] == v,
            decreases order.len() - i,
        {
            if order[i] == v {
                found = true;
            }
            i = i + 1;
        }
        if !found {
            proof {
                assert(idx@[j as int] == v);
            }
            return Some(v);
        }
        j = j + 1;
    }
    None
}

/// A path from `s` to `v != s` starts with an edge out of `s`.
pub proof fn lemma_within_first(es: Set<(nat, nat)>, s: nat, v: nat, d: nat)
    requires
        within(es, s, v, d),
        v != s,
    ensures
        exists|c: nat| #[trigger] es.contains((s, c)) && within(es, c, v, (d - 1) as nat),
    decreases d,
{
    let u = choose|u: nat| #[trigger] es.contains((u, v)) && within(es, s, u, (d - 1) as nat);
    if u == s {
        assert(within(es, v, v, (d - 1) as nat));
        assert(es.contains((s, v)));
    } else {
        lemma_within_first(es, s, u, (d - 1) as nat);
        let c = choose|c: nat| #[trigger] es.contains((s, c)) && within(es, c, u, (d - 2) as nat);
        assert(within(es, c, v, (d - 1) as nat));
    }
}

/// An edge followed by a path is a path.
pub proof fn lemma_within_prepend(es: Set<(nat, nat)>, s: nat, c: nat, v: nat, d: nat)
    requires
        es.contains((s, c)),
        within(es, c, v, d),
    ensures
        within(es, s, v, d + 1),
    decreases d,
{
    if v == c {
        assert(within(es, s, s, d));
        assert(es.contains((s, v)) && within(es, s, s, d));
    } else {
        let u = choose|u: nat| #[trigger] es.contains((u, v)) && within(es, c, u, (d - 1) as nat);
        lemma_within_prepend(es, s, c, u, (d - 1) as nat);
        assert(es.contains((u, v)) && within(es, s, u, d));
    }
}

/// The nodes of `s` that removal takes: all but the `std` node, which is
/// exempt.
pub open spec fn removable(g: GraphView, s: Seq<usize>) -> Set<nat> {
    index_set(s).filter(|v: nat| g.std != Some(v))
}

/// Whether `p` begins `s`.
pub open spec fn is_prefix(p: Seq<char>, s: Seq<char>) -> bool {
    p.len() <= s.len() && s.subrange(0, p.len() as int) == p
}

fn starts_with_chars(s: &Vec<char>, p: &Vec<char>) -> (r: bool)
    ensures
        r == is_prefix(p@, s@),
{
    if p.len() > s.len() {
        return false;
    }
    let mut i: usize = 0;
    while i < p.len()
        invariant
            p@.len() <= s@.len(),
            i <= p@.len(),
            forall|k: int| 0 <= k < i ==> s@[k] == p@[k],
        decreases p.len() - i,
    {
        if s[i] != p[i] {
            proof {
                assert(s@.subrange(0, p@.len() as int)[i as int] != p@[i as int]);
            }
            return false;
        }
        i = i + 1;
    }
    proof {
        assert(s@.subrange(0, p@.len() as int) =~= p@);
    }
    true
}

/// The nodes of `g` whose value in `values` is below `t`, but the root and
/// `std`.
pub open spec fn small_set(g: GraphView, values: Seq<usize>, t: usize) -> Set<nat> {
    Set::new(|v: nat| g.nodes.contains(v) && v < values.len() && values[v as int] < t && v != g.root && g.std != Some(v))
}

/// The nodes of `g` whose full name starts with one of `patterns`, but the
/// root and `std`.
pub open spec fn excluded_set(g: Graph, patterns: Seq<Seq<char>>) -> Set<nat> {
    Set::new(|v: nat| g@.nodes.contains(v) && v != g@.root && g@.std != Some(v)
        && exists|k: int| 0 <= k < patterns.len() && is_prefix(patterns[k], #[trigger] g.weight_of(v).full_spec()))
}

/// Why a name pattern selects no single node.
#[derive(Debug, PartialEq, Eq)]
pub enum SelectorError {
    /// No node's full name starts with the pattern.
    NotFound,
    /// Several do: these.
    Ambiguous(Vec<usize>),
}

/// Paths of at most `d` edges survive when only the nodes within `d` edges
/// of the root remain.
pub proof fn lemma_within_depth_limited(g: GraphView, d: nat, v: nat, e: nat)
    requires
        e <= d,
        within(g.edges, g.root, v, e),
    ensures
        within(g.depth_limited(d).edges, g.root, v, e),
    decreases e,
{
    if v != g.root {
        let u = choose|u: nat| #[trigger] g.edges.contains((u, v)) && within(g.edges, g.root, u, (e - 1) as nat);
        lemma_within_depth_limited(g, d, u, (e - 1) as nat);
        lemma_within_mono_to(g.edges, g.root, u, (e - 1) as nat, d);
        lemma_within_mono_to(g.edges, g.root, v, e, d);
        assert(g.depth_limited(d).edges.contains((u, v)));
    }
}

/// After depth pruning every node but `std` can be reached from the root.
pub proof fn lemma_depth_limited_reachable(g: GraphView, d: nat)
    ensures
        g.depth_limited(d).all_reachable(),
{
    let h = g.depth_limited(d);
    assert forall|v: nat| h.nodes.contains(v) && h.std != Some(v) implies #[trigger] reaches(h.edges, h.root, v) by {
        lemma_within_depth_limited(g, d, v, d);
    }
}

/// The node indices that `s` lists.
pub open spec fn index_set(s: Seq<usize>) -> Set<nat> {
    Set::new(|v: nat| exists|i: int| 0 <= i < s.len() && s[i] as nat == v)
}

impl Graph {
    pub closed spec fn inv(&self) -> bool {
        let nodes = pg_nodes(self.inner);
        let edges = pg_edges(self.inner);
        let rank = self.rank@;
        &&& nodes.dom().finite()
        &&& edges.dom().finite()
        &&& forall|v: nat| #[trigger] nodes.contains_key(v) ==> v < usize::MAX && nodes[v] < self.weights@.len()
        &&& forall|e: nat|
            #[trigger] edges.contains_key(e) ==> {
                &&& nodes.contains_key(edges[e].0)
                &&& nodes.contains_key(edges[e].1)
                &&& edges[e].0 != edges[e].1
                &&& edges[e].2 < self.edge_weights@.len()
                &&& rank(edges[e].0) < rank(edges[e].1)
                &&& self.std != Some(edges[e].0 as usize)
                &&& self.std != Some(edges[e].1 as usize)
            }
        &&& forall|e1: nat, e2: nat|
            #[trigger] edges.contains_key(e1) && #[trigger] edges.contains_key(e2) && edges[e1].0
                == edges[e2].0 && edges[e1].1 == edges[e2].1 ==> e1 == e2
        &&& nodes.contains_key(self.root as nat)
        &&& match self.std {
            Some(s) => nodes.contains_key(s as nat),
            None => true,
        }
    }

    /// The graph is well formed: see `GraphView::wf`.
    pub open spec fn wf(&self) -> bool {
        self.inv() && self@.wf()
    }

    proof fn lemma_inv_wf(&self)
        requires
            self.inv(),
        ensures
            self@.wf(),
    {
        let v = self@;
        let rank = self.rank@;
        assert forall|a: nat, b: nat| #[trigger] v.edges.contains((a, b)) implies v.nodes.contains(a)
            && v.nodes.contains(b) && a != b && rank(a) < rank(b) && v.std != Some(a) && v.std
            != Some(b) by {
            let e = choose|e: nat|
                #[trigger] pg_edges(self.inner).contains_key(e) && pg_edges(self.inner)[e].0 == a
                    && pg_edges(self.inner)[e].1 == b;
        }
        assert(v.ranked_by(rank));
    }

    /// The crate at node `v`.
    pub closed spec fn weight_of(&self, v: nat) -> NodeWeight {
        self.weights@[pg_nodes(self.inner)[v] as int]
    }

    /// The dependency relation on the edge from `a` to `b`.
    pub closed spec fn edge_weight_of(&self, a: nat, b: nat) -> EdgeWeight {
        let e = choose|e: nat| #[trigger]
            pg_edges(self.inner).contains_key(e) && pg_edges(self.inner)[e].0 == a && pg_edges(self.inner)[e].1 == b;
        self.edge_weights@[pg_edges(self.inner)[e].2 as int]
    }

    /// No node index below the highest one ever used is vacant: the graph
    /// has had nodes added but none removed.
    pub closed spec fn no_vacancy(&self) -> bool {
        pg_nodes(self.inner).dom().len() == pg_node_slots(self.inner)
    }

    /// The size table: each short name with its byte count.
    pub closed spec fn size_table(&self) -> Seq<(Seq<char>, usize)> {
        self.size_map@.map_values(|e: (String, usize)| (e.0@, e.1))
    }

    /// `self` keeps the crates and the size table of `other`.
    pub open spec fn same_tables(&self, other: &Graph) -> bool {
        &&& self.size_table() == other.size_table()
        &&& forall|v: nat| #[trigger] self@.nodes.contains(v) ==> self.weight_of(v) == other.weight_of(v)
        &&& forall|a: nat, b: nat| #[trigger] self@.edges.contains((a, b)) ==> self.edge_weight_of(a, b) == other.edge_weight_of(a, b)
    }

    /// Every edge of `self` is an edge of `other`, with the same index, ends
    /// and weight, and the relation weights are the same.
    pub closed spec fn edges_kept(&self, other: &Graph) -> bool {
        &&& self.edge_weights == other.edge_weights
        &&& forall|e: nat| #[trigger] pg_edges(self.inner).contains_key(e) ==> pg_edges(other.inner).contains_key(e)
            && pg_edges(self.inner)[e] == pg_edges(other.inner)[e]
    }

    proof fn lemma_edge_weight_of(&self, e: nat)
        requires
            self.inv(),
            pg_edges(self.inner).contains_key(e),
        ensures
            self.edge_weight_of(pg_edges(self.inner)[e].0, pg_edges(self.inner)[e].1) == self.edge_weights@[pg_edges(self.inner)[e].2 as int],
    {
        let a = pg_edges(self.inner)[e].0;
        let b = pg_edges(self.inner)[e].1;
        let e2 = choose|e2: nat| #[trigger]
            pg_edges(self.inner).contains_key(e2) && pg_edges(self.inner)[e2].0 == a && pg_edges(self.inner)[e2].1 == b;
        assert(e2 == e);
    }

    proof fn lemma_edges_kept(&self, other: &Graph)
        requires
            self.inv(),
            other.inv(),
            self.edges_kept(other),
        ensures
            forall|a: nat, b: nat| #[trigger] self@.edges.contains((a, b)) ==> self.edge_weight_of(a, b) == other.edge_weight_of(a, b),
    {
        assert forall|a: nat, b: nat| #[trigger] self@.edges.contains((a, b)) implies self.edge_weight_of(a, b) == other.edge_weight_of(a, b) by {
            let e = choose|e: nat| #[trigger]
                pg_edges(self.inner).contains_key(e) && pg_edges(self.inner)[e].0 == a && pg_edges(self.inner)[e].1 == b;
            self.lemma_edge_weight_of(e);
            other.lemma_edge_weight_of(e);
        }
    }

    /// A bound above every node index.
    pub(crate) fn node_bound(&self) -> (r: usize)
        requires
            self.inv(),
        ensures
            forall|v: nat| #[trigger] self@.nodes.contains(v) ==> v < r,
    {
        let idx = pg_node_indices(&self.inner);
        if idx.len() == 0 {
            0
        } else {
            let last = idx[idx.len() - 1];
            proof {
                assert(pg_nodes(self.inner).contains_key(last as nat));
                assert forall|v: nat| #[trigger] self@.nodes.contains(v) implies v < last + 1 by {
                    let i = choose|i: int| 0 <= i < idx@.len() && idx@[i] == v;
                    if i < idx@.len() - 1 {
                        assert(idx@[i] < idx@[idx@.len() - 1]);
                    }
                }
            }
            last + 1
        }
    }

    /// Removes every node that `keep` does not mark, but the `std` node.
    fn remove_not_visited(&mut self, keep: &Vec<bool>)
        requires
            old(self).inv(),
            kept_by(keep@, old(self)@.std, old(self)@.root),
        ensures
            final(self).inv(),
            final(self)@ == old(self)@.restrict(|v: nat| kept_by(keep@, old(self)@.std, v)),
            final(self).same_tables(old(self)),
            final(self).edges_kept(old(self)),
            final(self).rank == old(self).rank,
    {
        let ghost g0 = self@;
        let ghost f = |v: nat| kept_by(keep@, g0.std, v);
        let idx = pg_node_indices(&self.inner);
        let mut k: usize = 0;
        let ghost mut done: Set<nat> = Set::empty();
        proof {
            self.lemma_inv_wf();
            assert(self@.nodes =~= g0.restrict(|v: nat| f(v) || !done.contains(v)).nodes);
            assert(self@.edges =~= g0.restrict(|v: nat| f(v) || !done.contains(v)).edges);
        }
        while k < idx.len()
            invariant
                0 <= k <= idx@.len(),
                self.inv(),
                self.same_tables(old(self)),
                self.edges_kept(old(self)),
                old(self).inv(),
                self.rank == old(self).rank,
                self.std == old(self).std,
                self.root == old(self).root,
                g0 == old(self)@,
                g0.wf(),
                f == (|v: nat| kept_by(keep@, g0.std, v)),
                kept_by(keep@, g0.std, g0.root),
                forall|v: nat| pg_nodes(old(self).inner).contains_key(v) <==> exists|i: int| 0 <= i < idx@.len() && idx@[i] == v,
                forall|v: nat| done.contains(v) <==> exists|i: int| 0 <= i < k && idx@[i] == v,
                self@ == g0.restrict(|v: nat| f(v) || !done.contains(v)),
            decreases idx.len() - k,
        {
            let v = idx[k];
            let ghost before = self@;
            let ghost f_k = |x: nat| f(x) || !done.contains(x);
            let ghost done1 = done.insert(v as nat);
            let ghost f_k1 = |x: nat| f(x) || !done1.contains(x);
            let drop = (v >= keep.len() || !keep[v]) && self.std != Some(v);
            if drop {
                let ghost g_before = self.inner;
                let _ = pg_remove_node(&mut self.inner, v);
                proof {
                    assert(v != self.root);
                    assert forall|e: nat| #[trigger] pg_edges(self.inner).contains_key(e) implies
                        pg_edges(g_before).contains_key(e) && pg_edges(self.inner)[e] == pg_edges(g_before)[e]
                        && pg_edges(g_before)[e].0 != v && pg_edges(g_before)[e].1 != v by {}
                    assert(pg_edges(self.inner).dom().subset_of(pg_edges(g_before).dom()));
                    vstd::set_lib::lemma_set_subset_finite(pg_edges(g_before).dom(), pg_edges(self.inner).dom());
                    lemma_remove_node_edges(g_before, self.inner, v as nat);
                    assert(self@.nodes =~= before.restrict(|x: nat| x != v as nat).nodes);
                    assert(self@.edges =~= before.restrict(|x: nat| x != v as nat).edges);
                    lemma_restrict_twice(g0, f_k, |x: nat| x != v as nat);
                    assert(g0.restrict(|x: nat| f_k(x) && x != v as nat).nodes =~= g0.restrict(f_k1).nodes);
                    assert(g0.restrict(|x: nat| f_k(x) && x != v as nat).edges =~= g0.restrict(f_k1).edges);
                    self.lemma_edges_kept(old(self));
                }
            } else {
                proof {
                    assert(g0.restrict(f_k).nodes =~= g0.restrict(f_k1).nodes);
                    assert(g0.restrict(f_k).edges =~= g0.restrict(f_k1).edges);
                }
            }
            proof {
                assert(self@ =~= g0.restrict(f_k1));
                done = done1;
            }
            k = k + 1;
        }
        proof {
            assert(self@.nodes =~= g0.restrict(f).nodes);
            assert(self@.edges =~= g0.restrict(f).edges);
        }
    }

    /// Removes the nodes that cannot be reached from the root, but `std`;
    /// after it every remaining node but `std` can be reached from the root.
    pub fn remove_unreachable(&mut self)
        requires
            old(self).wf(),
        ensures
            final(self).wf(),
            final(self)@ == old(self)@.pruned(),
            final(self)@.all_reachable(),
            final(self).same_tables(old(self)),
            final(self).edges_kept(old(self)),
    {
        let ghost g0 = self@;
        proof {
            lemma_pruned_all_reachable(g0);
        }
        let order = pg_dfs(&self.inner, self.root);
        let ghost es = pg_edge_set(self.inner);
        let ghost r0 = self.root as nat;
        assert(forall|v: nat| #[trigger] reaches(es, r0, v) <==> index_set(order@).contains(v));
        let bound = self.node_bound();
        let mut keep: Vec<bool> = vec![false; bound];
        let mut i: usize = 0;
        while i < order.len()
            invariant
                i <= order@.len(),
                self.wf(),
                g0 == self@,
                keep@.len() == bound,
                forall|v: nat| #[trigger] self@.nodes.contains(v) ==> v < bound,
                es == g0.edges,
                r0 == g0.root,
                forall|v: nat| #[trigger] reaches(es, r0, v) <==> index_set(order@).contains(v),
                forall|j: int|
                    0 <= j < bound ==> #[trigger] keep@[j] == (exists|m: int| 0 <= m < i && order@[m] == j),
            decreases order.len() - i,
        {
            let v = order[i];
            proof {
                assert(index_set(order@).contains(v as nat));
                assert(reaches(g0.edges, g0.root, v as nat));
                lemma_reaches_node(g0, v as nat);
            }
            keep.set(v, true);
            i = i + 1;
        }
        proof {
            assert forall|v: nat| g0.nodes.contains(v) implies kept_by(keep@, g0.std, v) == g0.kept(v) by {
                if reaches(g0.edges, g0.root, v) {
                    assert(reaches(es, r0, v));
                    assert(index_set(order@).contains(v));
                    let m = choose|m: int| 0 <= m < order@.len() && order@[m] as nat == v;
                    assert(keep@[v as int]);
                }
                if v < keep@.len() && keep@[v as int] {
                    let m = choose|m: int| 0 <= m < order@.len() && order@[m] == v;
                    assert(index_set(order@).contains(v));
                }
            }
            lemma_restrict_same(g0, |v: nat| kept_by(keep@, g0.std, v), |v: nat| g0.kept(v));
            assert(reaches(g0.edges, g0.root, g0.root)) by {
                assert(within(g0.edges, g0.root, g0.root, 0));
            }
        }
        self.remove_not_visited(&keep);
        proof {
            self.lemma_inv_wf();
        }
    }

    /// Removes the nodes `indices` with their edges (the `std` node is exempt
    /// from removal and stays), then every node that can no longer be reached
    /// from the root.
    pub fn remove_indices(&mut self, indices: &[usize])
        requires
            old(self).wf(),
            !index_set(indices@).contains(old(self)@.root),
        ensures
            final(self).wf(),
            final(self)@ == old(self)@.without(removable(old(self)@, indices@)).pruned(),
            final(self)@.all_reachable(),
            final(self).same_tables(old(self)),
            final(self).edges_kept(old(self)),
    {
        let ghost g0 = self@;
        let mut k: usize = 0;
        let ghost mut gone: Set<nat> = Set::empty();
        proof {
            assert(self@ =~= g0.without(gone));
        }
        while k < indices.len()
            invariant
                0 <= k <= indices@.len(),
                self.inv(),
                g0 == old(self)@,
                g0.wf(),
                self.same_tables(old(self)),
                self.edges_kept(old(self)),
                old(self).inv(),
                self.rank == old(self).rank,
                self.std == old(self).std,
                self.root == old(self).root,
                !index_set(indices@).contains(g0.root),
                forall|x: nat| gone.contains(x) <==> (exists|i: int| 0 <= i < k && indices@[i] as nat == x) && g0.std != Some(x),
                self@ == g0.without(gone),
            decreases indices.len() - k,
        {
            let v = indices[k];
            let ghost g_before = self.inner;
            let is_std = match self.std {
                Some(s) => s == v,
                None => false,
            };
            let ghost gone1 = if is_std { gone } else { gone.insert(v as nat) };
            proof {
                assert(index_set(indices@).contains(v as nat));
            }
            if !is_std {
                let _ = pg_remove_node(&mut self.inner, v);
                proof {
                    assert forall|e: nat| #[trigger] pg_edges(self.inner).contains_key(e) implies
                        pg_edges(g_before).contains_key(e) && pg_edges(self.inner)[e] == pg_edges(g_before)[e]
                        && pg_edges(g_before)[e].0 != v && pg_edges(g_before)[e].1 != v by {}
                    assert(pg_edges(self.inner).dom().subset_of(pg_edges(g_before).dom()));
                    vstd::set_lib::lemma_set_subset_finite(pg_edges(g_before).dom(), pg_edges(self.inner).dom());
                    lemma_remove_node_edges(g_before, self.inner, v as nat);
                    assert(self@.nodes =~= g0.without(gone1).nodes);
                    assert(self@.edges =~= g0.without(gone1).edges);
                    assert forall|x: nat| #[trigger] self@.nodes.contains(x) implies self.weight_of(x)
                        == old(self).weight_of(x) by {
                        assert(pg_nodes(g_before).contains_key(x));
                        assert(pg_nodes(self.inner)[x] == pg_nodes(g_before)[x]);
                        assert(g0.without(gone).nodes.contains(x));
                    }
                    self.lemma_edges_kept(old(self));
                }
            }
            proof {
                assert forall|x: nat| gone1.contains(x) <==> (exists|i: int| 0 <= i < k + 1 && indices@[i] as nat == x) && g0.std != Some(x) by {
                    if gone1.contains(x) && x != v as nat {
                        let i = choose|i: int| 0 <= i < k && indices@[i] as nat == x;
                    }
                    if exists|i: int| 0 <= i < k + 1 && indices@[i] as nat == x {
                        let i = choose|i: int| 0 <= i < k + 1 && indices@[i] as nat == x;
                        if i < k {
                            assert(exists|i2: int| 0 <= i2 < k && indices@[i2] as nat == x);
                        }
                    }
                }
                gone = gone1;
            }
            k = k + 1;
        }
        proof {
            assert(gone =~= removable(g0, indices@));
            self.lemma_inv_wf();
        }
        self.remove_unreachable();
        proof {
            lemma_pruned_all_reachable(old(self)@.without(removable(old(self)@, indices@)));
            self.lemma_edges_kept(old(self));
        }
    }

    /// Makes `new_root` the root, then removes every node that cannot be
    /// reached from it, but `std`.
    pub fn change_root(&mut self, new_root: usize)
        requires
            old(self).wf(),
            old(self)@.nodes.contains(new_root as nat),
        ensures
            final(self).wf(),
            final(self)@ == old(self)@.rerooted(new_root as nat).pruned(),
            final(self)@.all_reachable(),
            final(self).same_tables(old(self)),
            final(self).edges_kept(old(self)),
    {
        self.root = new_root;
        proof {
            self.lemma_inv_wf();
            assert(self@ =~= old(self)@.rerooted(new_root as nat));
        }
        self.remove_unreachable();
        proof {
            lemma_pruned_all_reachable(old(self)@.rerooted(new_root as nat));
            self.lemma_edges_kept(old(self));
        }
    }

    /// Adds the synthetic `std` node, with no edges.
    pub fn add_std(&mut self)
        requires
            old(self).wf(),
            old(self)@.std is None,
        ensures
            final(self).wf(),
            final(self)@.std is Some,
            !old(self)@.nodes.contains(final(self)@.std->0),
            final(self)@.nodes == old(self)@.nodes.insert(final(self)@.std->0),
            final(self)@.edges == old(self)@.edges,
            final(self)@.root == old(self)@.root,
            final(self).weight_of(final(self)@.std->0).short_spec() == seq!['s', 't', 'd'],
            final(self).weight_of(final(self)@.std->0).extra_spec() == Seq::<char>::empty(),
            final(self).weight_of(final(self)@.std->0).full_spec() == seq!['s', 't', 'd', ' '],
            final(self).weight_of(final(self)@.std->0).features_spec()@.len() == 0,
            final(self).size_table() == old(self).size_table(),
            forall|v: nat| #[trigger] old(self)@.nodes.contains(v) ==> final(self).weight_of(v) == old(self).weight_of(v),
            forall|a: nat, b: nat| #[trigger] final(self).edge_weight_of(a, b) == old(self).edge_weight_of(a, b),
            old(self).no_vacancy() ==> final(self)@.std == Some(old(self)@.nodes.len()),
    {
        let w = NodeWeight::new(String::from_str("std"), String::new(), Vec::new());
        proof {
            reveal_strlit("std");
            assert(w.full_spec() =~= seq!['s', 't', 'd', ' ']);
        }
        proof {
            reveal_strlit("std");
        }
        self.weights.push(w);
        let index = pg_add_node(&mut self.inner, self.weights.len() - 1);
        self.std = Some(index);
        proof {
            assert(pg_edge_set(self.inner) =~= old(self)@.edges);
            assert forall|e: nat| #[trigger] pg_edges(self.inner).contains_key(e) implies
                pg_edges(self.inner)[e].0 != index && pg_edges(self.inner)[e].1 != index by {
                assert(pg_nodes(old(self).inner).contains_key(pg_edges(self.inner)[e].0));
            }
            assert forall|v: nat| #[trigger] old(self)@.nodes.contains(v) implies
                self.weight_of(v) == old(self).weight_of(v) by {
                assert(pg_nodes(self.inner)[v] == pg_nodes(old(self).inner)[v]);
            }
            self.lemma_inv_wf();
        }
    }

    /// The `std` node, if there is one.
    pub fn std_node(&self) -> (r: Option<usize>)
        ensures
            match r {
                Some(s) => self@.std == Some(s as nat),
                None => self@.std is None,
            },
    {
        self.std
    }

    /// The root.
    pub fn root(&self) -> (r: usize)
        ensures
            r as nat == self@.root,
    {
        self.root
    }

    /// The number of nodes.
    pub fn node_count(&self) -> (r: usize)
        ensures
            r == self@.nodes.len(),
    {
        pg_node_count(&self.inner)
    }

    /// The crate at node `index`, if there is one.
    pub fn node_weight(&self, index: usize) -> (r: Option<&NodeWeight>)
        requires
            self.wf(),
        ensures
            match r {
                Some(w) => self@.nodes.contains(index as nat) && *w == self.weight_of(index as nat),
                None => !self@.nodes.contains(index as nat),
            },
    {
        match pg_node_weight(&self.inner, index) {
            Some(w) => Some(&self.weights[w]),
            None => None,
        }
    }

    /// The node indices, in increasing order.
    pub fn node_indices(&self) -> (r: Vec<usize>)
        ensures
            forall|i: int, j: int| 0 <= i < j < r@.len() ==> r@[i] < r@[j],
            forall|v: nat| self@.nodes.contains(v) <==> index_set(r@).contains(v),
    {
        let r = pg_node_indices(&self.inner);
        proof {
            assert forall|v: nat| self@.nodes.contains(v) <==> index_set(r@).contains(v) by {
                if self@.nodes.contains(v) {
                    let i = choose|i: int| 0 <= i < r@.len() && r@[i] == v;
                }
            }
        }
        r
    }

    /// The nodes reachable from the root, depth first, the root first.
    pub fn dfs(&self) -> (r: Vec<usize>)
        requires
            self.wf(),
        ensures
            r@.len() > 0 && r@[0] as nat == self@.root,
            forall|i: int, j: int| 0 <= i < j < r@.len() ==> r@[i] != r@[j],
            forall|v: nat| index_set(r@).contains(v) <==> reaches(self@.edges, self@.root, v),
    {
        let r = pg_dfs(&self.inner, self.root);
        proof {
            assert forall|v: nat| index_set(r@).contains(v) <==> reaches(self@.edges, self@.root, v) by {
                assert(reaches(pg_edge_set(self.inner), self.root as nat, v) <==> index_set(r@).contains(v));
            }
        }
        r
    }

    /// The nodes reachable from the root, breadth first, the root first.
    pub fn bfs(&self) -> (r: Vec<usize>)
        requires
            self.wf(),
        ensures
            r@.len() > 0 && r@[0] as nat == self@.root,
            forall|i: int, j: int| 0 <= i < j < r@.len() ==> r@[i] != r@[j],
            forall|v: nat| index_set(r@).contains(v) <==> reaches(self@.edges, self@.root, v),
    {
        let r = pg_bfs(&self.inner, self.root);
        proof {
            assert forall|v: nat| index_set(r@).contains(v) <==> reaches(self@.edges, self@.root, v) by {
                assert(reaches(pg_edge_set(self.inner), self.root as nat, v) <==> index_set(r@).contains(v));
            }
        }
        r
    }

    /// The nodes at the other end of the edges leaving (`outgoing`) or
    /// entering `index`.
    fn edge_ends(&self, index: usize, outgoing: bool) -> (r: Vec<usize>)
        requires
            self.wf(),
        ensures
            forall|i: int, j: int| 0 <= i < j < r@.len() ==> r@[i] != r@[j],
            forall|t: nat|
                index_set(r@).contains(t) <==> (if outgoing {
                    self@.edges.contains((index as nat, t))
                } else {
                    self@.edges.contains((t, index as nat))
                }),
    {
        let es = pg_edges_at(&self.inner, index, outgoing);
        let mut r: Vec<usize> = Vec::new();
        let mut i: usize = 0;
        while i < es.len()
            invariant
                i <= es@.len(),
                r@.len() == i,
                forall|k: int| 0 <= k < i ==> r@[k] == es@[k].1,
            decreases es.len() - i,
        {
            r.push(es[i].1);
            i = i + 1;
        }
        proof {
            let edges = pg_edges(self.inner);
            assert forall|i: int, j: int| 0 <= i < j < r@.len() implies r@[i] != r@[j] by {
                let ei = es@[i].0 as nat;
                let ej = es@[j].0 as nat;
                assert(edges.contains_key(ei) && edges.contains_key(ej));
            }
            assert forall|t: nat|
                index_set(r@).contains(t) <==> (if outgoing {
                    self@.edges.contains((index as nat, t))
                } else {
                    self@.edges.contains((t, index as nat))
                }) by {
                if index_set(r@).contains(t) {
                    let k = choose|k: int| 0 <= k < r@.len() && r@[k] as nat == t;
                    let e = es@[k].0 as nat;
                    assert(edges.contains_key(e));
                }
                if outgoing && self@.edges.contains((index as nat, t)) {
                    let e = choose|e: nat| #[trigger] edges.contains_key(e) && edges[e].0 == index as nat && edges[e].1 == t;
                    let k = choose|k: int| 0 <= k < es@.len() && es@[k].0 == e;
                    assert(r@[k] as nat == t);
                }
                if !outgoing && self@.edges.contains((t, index as nat)) {
                    let e = choose|e: nat| #[trigger] edges.contains_key(e) && edges[e].0 == t && edges[e].1 == index as nat;
                    let k = choose|k: int| 0 <= k < es@.len() && es@[k].0 == e;
                    assert(r@[k] as nat == t);
                }
            }
        }
        r
    }

    /// The direct dependencies of `index`, each once.
    pub fn children(&self, index: usize) -> (r: Vec<usize>)
        requires
            self.wf(),
        ensures
            forall|i: int, j: int| 0 <= i < j < r@.len() ==> r@[i] != r@[j],
            index_set(r@) == self@.children(index as nat),
    {
        let r = self.edge_ends(index, true);
        proof {
            assert(index_set(r@) =~= self@.children(index as nat));
        }
        r
    }

    /// The direct dependents of `index`, each once.
    pub fn parents(&self, index: usize) -> (r: Vec<usize>)
        requires
            self.wf(),
        ensures
            forall|i: int, j: int| 0 <= i < j < r@.len() ==> r@[i] != r@[j],
            index_set(r@) == self@.parents(index as nat),
    {
        let r = self.edge_ends(index, false);
        proof {
            assert(index_set(r@) =~= self@.parents(index as nat));
        }
        r
    }

    proof fn lemma_topo_complete(&self, r: Seq<usize>, v: nat)
        requires
            self.inv(),
            forall|w: nat|
                pg_nodes(self.inner).contains_key(w) && !r.contains(w as usize) ==> exists|u: nat|
                    #[trigger] pg_has_edge(self.inner, u, w) && !r.contains(u as usize),
            pg_nodes(self.inner).contains_key(v),
        ensures
            r.contains(v as usize),
        decreases self.rank@(v),
    {
        if !r.contains(v as usize) {
            let u = choose|u: nat| #[trigger] pg_has_edge(self.inner, u, v) && !r.contains(u as usize);
            let e = choose|e: nat| #[trigger]
                pg_edges(self.inner).contains_key(e) && pg_edges(self.inner)[e].0 == u && pg_edges(self.inner)[e].1 == v;
            self.lemma_topo_complete(r, u);
        }
    }

    /// Every node once, each before the nodes it depends on.
    pub fn topo(&self) -> (r: Vec<usize>)
        requires
            self.wf(),
        ensures
            forall|i: int, j: int| 0 <= i < j < r@.len() ==> r@[i] != r@[j],
            forall|v: nat| self@.nodes.contains(v) <==> index_set(r@).contains(v),
            forall|i: int, j: int|
                0 <= i < r@.len() && 0 <= j < r@.len() && #[trigger] self@.edges.contains((r@[i] as nat, r@[j] as nat)) ==> i < j,
    {
        let r = pg_topo(&self.inner);
        proof {
            assert forall|v: nat| self@.nodes.contains(v) <==> index_set(r@).contains(v) by {
                if self@.nodes.contains(v) {
                    self.lemma_topo_complete(r@, v);
                    let k = choose|k: int| 0 <= k < r@.len() && r@[k] == v as usize;
                    assert(v < usize::MAX);
                }
                if index_set(r@).contains(v) {
                    let k = choose|k: int| 0 <= k < r@.len() && r@[k] as nat == v;
                    assert(pg_nodes(self.inner).contains_key(r@[k] as nat));
                }
            }
            assert forall|i: int, j: int|
                0 <= i < r@.len() && 0 <= j < r@.len() && #[trigger] self@.edges.contains((r@[i] as nat, r@[j] as nat)) implies i < j by {
                assert(pg_has_edge(self.inner, r@[i] as nat, r@[j] as nat));
                let k = choose|k: int| 0 <= k < j && r@[k] == r@[i] as nat;
                if k != i {
                    assert(r@[k] == r@[i]);
                }
            }
        }
        r
    }

    /// Removes every node more than `max_depth` edges away from the root, but
    /// `std`.
    pub fn remove_deep_deps(&mut self, max_depth: usize)
        requires
            old(self).wf(),
        ensures
            final(self).wf(),
            final(self)@ == old(self)@.depth_limited(max_depth as nat),
            final(self)@.all_reachable(),
            final(self).same_tables(old(self)),
    {
        let ghost g0 = self@;
        let ghost es = g0.edges;
        let ghost r0 = g0.root;
        let bound = self.node_bound();
        let mut keep: Vec<bool> = vec![false; bound];
        keep.set(self.root, true);
        let mut frontier: Vec<usize> = Vec::new();
        frontier.push(self.root);
        let mut depth: usize = 0;
        proof {
            assert forall|v: nat| v < bound implies (keep@[v as int] <==> within(es, r0, v, 0)) by {}
            assert forall|v: nat| index_set(frontier@).contains(v) <==> at_depth(es, r0, v, 0) by {
                if index_set(frontier@).contains(v) {
                    let k = choose|k: int| 0 <= k < frontier@.len() && frontier@[k] as nat == v;
                }
                if at_depth(es, r0, v, 0) {
                    assert(frontier@[0] as nat == v);
                }
            }
        }
        while depth < max_depth && frontier.len() > 0
            invariant
                self.wf(),
                self@ == g0,
                es == g0.edges,
                r0 == g0.root,
                g0.wf(),
                keep@.len() == bound,
                forall|v: nat| #[trigger] g0.nodes.contains(v) ==> v < bound,
                depth <= max_depth,
                forall|v: nat| v < bound ==> (#[trigger] keep@[v as int] <==> within(es, r0, v, depth as nat)),
                forall|v: nat| #[trigger] index_set(frontier@).contains(v) <==> at_depth(es, r0, v, depth as nat),
            decreases max_depth - depth,
        {
            let ghost layer = Set::new(|u: nat| at_depth(es, r0, u, depth as nat));
            let mut next: Vec<usize> = Vec::new();
            let mut i: usize = 0;
            let ghost mut done: Set<nat> = Set::empty();
            while i < frontier.len()
                invariant
                    self.wf(),
                    self@ == g0,
                    es == g0.edges,
                    r0 == g0.root,
                    g0.wf(),
                    i <= frontier@.len(),
                    keep@.len() == bound,
                    forall|v: nat| #[trigger] g0.nodes.contains(v) ==> v < bound,
                    forall|v: nat| #[trigger] index_set(frontier@).contains(v) <==> at_depth(es, r0, v, depth as nat),
                    layer == Set::new(|u: nat| at_depth(es, r0, u, depth as nat)),
                    forall|u: nat| #[trigger] done.contains(u) <==> exists|k: int| 0 <= k < i && frontier@[k] as nat == u,
                    forall|v: nat| v < bound ==> (#[trigger] keep@[v as int] <==> within(es, r0, v, depth as nat) || hit(es, done, v)),
                    forall|v: nat| #[trigger] index_set(next@).contains(v) <==> !within(es, r0, v, depth as nat) && hit(es, done, v),
                decreases frontier.len() - i,
            {
                let u = frontier[i];
                let cs = self.children(u);
                let ghost done1 = done.insert(u as nat);
                let mut j: usize = 0;
                while j < cs.len()
                    invariant
                        self.wf(),
                        self@ == g0,
                        es == g0.edges,
                        g0.wf(),
                        j <= cs@.len(),
                        keep@.len() == bound,
                        forall|v: nat| #[trigger] g0.nodes.contains(v) ==> v < bound,
                        index_set(cs@) == g0.children(u as nat),
                        i < frontier@.len(),
                        u == frontier@[i as int],
                        r0 == g0.root,
                        forall|w: nat| #[trigger] done.contains(w) <==> exists|k: int| 0 <= k < i && frontier@[k] as nat == w,
                        forall|v: nat| #[trigger] index_set(frontier@).contains(v) <==> at_depth(es, r0, v, depth as nat),
                        layer == Set::new(|x: nat| at_depth(es, r0, x, depth as nat)),
                        done1 == done.insert(u as nat),
                        forall|v: nat| v < bound ==> (#[trigger] keep@[v as int] <==> within(es, r0, v, depth as nat) || hit(es, done, v)
                            || exists|k: int| 0 <= k < j && cs@[k] as nat == v),
                        forall|v: nat| #[trigger] index_set(next@).contains(v) <==> !within(es, r0, v, depth as nat) && (hit(es, done, v)
                            || exists|k: int| 0 <= k < j && cs@[k] as nat == v),
                    decreases cs.len() - j,
                {
                    let t = cs[j];
                    proof {
                        assert(index_set(cs@).contains(t as nat));
                        assert(g0.nodes.contains(t as nat));
                    }
                    let ghost next_before = next@;
                    let ghost keep_before = keep@;
                    if !keep[t] {
                        keep.set(t, true);
                        next.push(t);
                    }
                    proof {
                        assert forall|v: nat| v < bound implies (#[trigger] keep@[v as int] <==> within(es, r0, v, depth as nat) || hit(es, done, v)
                            || exists|k: int| 0 <= k < j + 1 && cs@[k] as nat == v) by {
                            if v == t as nat {
                                assert(cs@[j as int] as nat == v);
                            } else {
                                assert(keep@[v as int] == keep_before[v as int]);
                                if exists|k: int| 0 <= k < j + 1 && cs@[k] as nat == v {
                                    let k = choose|k: int| 0 <= k < j + 1 && cs@[k] as nat == v;
                                    assert(k < j);
                                }
                            }
                        }
                        assert forall|v: nat| #[trigger] index_set(next@).contains(v) <==> !within(es, r0, v, depth as nat) && (hit(es, done, v)
                            || exists|k: int| 0 <= k < j + 1 && cs@[k] as nat == v) by {
                            if v == t as nat {
                                assert(cs@[j as int] as nat == v);
                            }
                            if v != t as nat {
                                if index_set(next@).contains(v) {
                                    let k = choose|k: int| 0 <= k < next@.len() && next@[k] as nat == v;
                                    assert(next_before[k] as nat == v);
                                    assert(index_set(next_before).contains(v));
                                }
                                if index_set(next_before).contains(v) {
                                    let k = choose|k: int| 0 <= k < next_before.len() && next_before[k] as nat == v;
                                    assert(next@[k] as nat == v);
                                }
                                if exists|k: int| 0 <= k < j + 1 && cs@[k] as nat == v {
                                    let k = choose|k: int| 0 <= k < j + 1 && cs@[k] as nat == v;
                                    assert(k < j);
                                }
                            } else {
                                if !keep_before[t as int] {
                                    assert(next@[next@.len() - 1] as nat == v);
                                } else {
                                    assert(keep_before[t as int]);
                                    assert(cs@[j as int] as nat == v);
                                }
                            }
                        }
                    }
                    j = j + 1;
                }
                proof {
                    assert forall|v: nat| (hit(es, done, v) || exists|k: int| 0 <= k < cs@.len() && cs@[k] as nat == v) <==> #[trigger] hit(es, done1, v) by {
                        if exists|k: int| 0 <= k < cs@.len() && cs@[k] as nat == v {
                            assert(index_set(cs@).contains(v));
                            assert(es.contains((u as nat, v)));
                        }
                        if hit(es, done1, v) {
                            let w = choose|w: nat| done1.contains(w) && #[trigger] es.contains((w, v));
                            if w == u as nat {
                                assert(g0.children(u as nat).contains(v));
                                assert(index_set(cs@).contains(v));
                            } else {
                                assert(done.contains(w));
                            }
                        }
                    }
                    assert forall|w: nat| done1.contains(w) <==> exists|k: int| 0 <= k < i + 1 && frontier@[k] as nat == w by {
                        if exists|k: int| 0 <= k < i + 1 && frontier@[k] as nat == w {
                            let k = choose|k: int| 0 <= k < i + 1 && frontier@[k] as nat == w;
                            if k < i {
                                assert(done.contains(w));
                            }
                        }
                    }
                    done = done1;
                }
                i = i + 1;
            }
            proof {
                assert(done =~= layer) by {
                    assert forall|u: nat| done.contains(u) <==> layer.contains(u) by {
                        if layer.contains(u) {
                            assert(index_set(frontier@).contains(u));
                            let k = choose|k: int| 0 <= k < frontier@.len() && frontier@[k] as nat == u;
                            assert(done.contains(u));
                        }
                        if done.contains(u) {
                            let k = choose|k: int| 0 <= k < i && frontier@[k] as nat == u;
                            assert(index_set(frontier@).contains(u));
                        }
                    }
                }
                assert forall|v: nat| v < bound implies (#[trigger] keep@[v as int] <==> within(es, r0, v, (depth + 1) as nat)) by {
                    lemma_within_step(es, r0, v, depth as nat);
                    assert(keep@[v as int] <==> within(es, r0, v, depth as nat) || hit(es, done, v));
                }
                assert forall|v: nat| #[trigger] index_set(next@).contains(v) <==> at_depth(es, r0, v, (depth + 1) as nat) by {
                    lemma_within_step(es, r0, v, depth as nat);
                }
            }
            frontier = next;
            depth = depth + 1;
        }
        proof {
            assert forall|v: nat| g0.nodes.contains(v) implies kept_by(keep@, g0.std, v) == (within(es, r0, v, max_depth as nat)
                || g0.std == Some(v)) by {
                if depth < max_depth {
                    assert forall|u: nat| !at_depth(es, r0, u, depth as nat) by {
                        if at_depth(es, r0, u, depth as nat) {
                            assert(index_set(frontier@).contains(u));
                            let k = choose|k: int| 0 <= k < frontier@.len() && frontier@[k] as nat == u;
                        }
                    }
                    if within(es, r0, v, max_depth as nat) {
                        lemma_within_stable(es, r0, v, depth as nat, max_depth as nat);
                    }
                    if within(es, r0, v, depth as nat) {
                        lemma_within_mono_to(es, r0, v, depth as nat, max_depth as nat);
                    }
                }
            }
            lemma_restrict_same(g0, |v: nat| kept_by(keep@, g0.std, v), |v: nat| within(es, r0, v, max_depth as nat) || g0.std == Some(v));
        }
        self.remove_not_visited(&keep);
        proof {
            self.lemma_inv_wf();
            lemma_depth_limited_reachable(g0, max_depth as nat);
            self.lemma_edges_kept(old(self));
        }
    }

    /// The byte count of the crate at node `index`, looked up by its short
    /// name in the size table.
    pub fn size(&self, index: usize) -> (r: Option<usize>)
        requires
            self.wf(),
            self@.nodes.contains(index as nat),
        ensures
            r == lookup_size(self.size_table(), self.weight_of(index as nat).short_spec()),
    {
        let w = pg_node_weight(&self.inner, index).unwrap();
        let short = &self.weights[w].short;
        let ghost table = self.size_table();
        let mut i: usize = 0;
        proof {
            assert(short@ == self.weight_of(index as nat).short_spec());
            assert(table.subrange(0, table.len() as int) =~= table);
        }
        while i < self.size_map.len()
            invariant
                i <= self.size_map@.len(),
                table == self.size_table(),
                table.len() == self.size_map@.len(),
                short@ == self.weight_of(index as nat).short_spec(),
                lookup_size(table, short@) == lookup_size(table.subrange(i as int, table.len() as int), short@),
            decreases self.size_map.len() - i,
        {
            let ghost rest = table.subrange(i as int, table.len() as int);
            proof {
                assert(rest[0] == table[i as int]);
            }
            if self.size_map[i].0 == *short {
                return Some(self.size_map[i].1);
            }
            proof {
                assert(rest.drop_first() =~= table.subrange(i + 1, table.len() as int));
            }
            i = i + 1;
        }
        None
    }

    /// The number of nodes whose crate has the short name `name`.
    pub closed spec fn short_count(&self, name: Seq<char>) -> nat {
        self@.nodes.filter(|v: nat| self.weight_of(v).short_spec() == name).len()
    }

    /// Divides each byte count of the size table by the number of nodes that
    /// share its short name (several versions of one crate share its size);
    /// an entry that no node has stays as it is.
    pub fn normalize_sizes(&mut self)
        requires
            old(self).wf(),
        ensures
            final(self).wf(),
            final(self)@ == old(self)@,
            forall|v: nat| #[trigger] final(self)@.nodes.contains(v) ==> final(self).weight_of(v) == old(self).weight_of(v),
            final(self).size_table().len() == old(self).size_table().len(),
            forall|a: nat, b: nat| #[trigger] final(self).edge_weight_of(a, b) == old(self).edge_weight_of(a, b),
            forall|name: Seq<char>| #[trigger] final(self).short_count(name) == old(self).short_count(name),
            final(self).no_vacancy() == old(self).no_vacancy(),
            forall|i: int|
                0 <= i < old(self).size_table().len() ==> #[trigger] final(self).size_table()[i] == (
                    old(self).size_table()[i].0,
                    if old(self).short_count(old(self).size_table()[i].0) == 0 {
                        old(self).size_table()[i].1
                    } else {
                        (old(self).size_table()[i].1 as nat / old(self).short_count(old(self).size_table()[i].0)) as usize
                    },
                ),
    {
        let idx = pg_node_indices(&self.inner);
        let mut i: usize = 0;
        while i < self.size_map.len()
            invariant
                i <= self.size_map@.len(),
                self.wf(),
                self.inner == old(self).inner,
                self.weights == old(self).weights,
                self.edge_weights == old(self).edge_weights,
                self.rank == old(self).rank,
                self.root == old(self).root,
                self.std == old(self).std,
                self.size_map@.len() == old(self).size_map@.len(),
                forall|k: int| i <= k < self.size_map@.len() ==> #[trigger] self.size_map@[k] == old(self).size_map@[k],
                forall|k: int|
                    0 <= k < i ==> #[trigger] self.size_table()[k] == (
                        old(self).size_table()[k].0,
                        if old(self).short_count(old(self).size_table()[k].0) == 0 {
                            old(self).size_table()[k].1
                        } else {
                            (old(self).size_table()[k].1 as nat / old(self).short_count(old(self).size_table()[k].0)) as usize
                        },
                    ),
                forall|v: nat| pg_nodes(self.inner).contains_key(v) <==> exists|k: int| 0 <= k < idx@.len() && idx@[k] == v,
                forall|a: int, b: int| 0 <= a < b < idx@.len() ==> idx@[a] < idx@[b],
            decreases self.size_map.len() - i,
        {
            let ghost name = self.size_map@[i as int].0@;
            let mut count: usize = 0;
            let mut j: usize = 0;
            let ghost mut seen: Set<nat> = Set::empty();
            while j < idx.len()
                invariant
                    j <= idx@.len(),
                    i < self.size_map@.len(),
                    name == self.size_map@[i as int].0@,
                    self.wf(),
                    count == seen.len(),
                    seen.finite(),
                    count <= j,
                    forall|v: nat| #[trigger] seen.contains(v) <==> (exists|k: int| 0 <= k < j && idx@[k] == v) && self.weight_of(v).short_spec() == name,
                    forall|v: nat| pg_nodes(self.inner).contains_key(v) <==> exists|k: int| 0 <= k < idx@.len() && idx@[k] == v,
                    forall|a: int, b: int| 0 <= a < b < idx@.len() ==> idx@[a] < idx@[b],
                decreases idx.len() - j,
            {
                let v = idx[j];
                proof {
                    assert(pg_nodes(self.inner).contains_key(v as nat));
                }
                let w = pg_node_weight(&self.inner, v).unwrap();
                let ghost seen1 = if self.weight_of(v as nat).short_spec() == name { seen.insert(v as nat) } else { seen };
                proof {
                    assert(!seen.contains(v as nat)) by {
                        if seen.contains(v as nat) {
                            let k = choose|k: int| 0 <= k < j && idx@[k] == v;
                            assert(idx@[k] < idx@[j as int]);
                        }
                    }
                    assert forall|x: nat| #[trigger] seen1.contains(x) <==> (exists|k: int| 0 <= k < j + 1 && idx@[k] == x) && self.weight_of(x).short_spec() == name by {
                        if exists|k: int| 0 <= k < j + 1 && idx@[k] == x {
                            let k = choose|k: int| 0 <= k < j + 1 && idx@[k] == x;
                            if k < j {
                                assert(exists|k: int| 0 <= k < j && idx@[k] == x);
                            }
                        }
                    }
                }
                if self.weights[w].short == self.size_map[i].0 {
                    count = count + 1;
                }
                proof {
                    seen = seen1;
                }
                j = j + 1;
            }
            proof {
                assert(seen =~= self@.nodes.filter(|v: nat| self.weight_of(v).short_spec() == name)) by {
                    assert forall|v: nat| seen.contains(v) <==> self@.nodes.filter(|v: nat| self.weight_of(v).short_spec() == name).contains(v) by {
                        if self@.nodes.contains(v) {
                            let k = choose|k: int| 0 <= k < idx@.len() && idx@[k] == v;
                        }
                    }
                }
                assert(seen =~= old(self)@.nodes.filter(|v: nat| old(self).weight_of(v).short_spec() == name));
            }
            let size = self.size_map[i].1;
            let new_size = if count == 0 { size } else { size / count };
            let key = self.size_map[i].0.clone();
            let ghost before = self.size_table();
            self.size_map.set(i, (key, new_size));
            proof {
                assert(count == old(self).short_count(name));
                assert(self.size_table()[i as int].0 == old(self).size_table()[i as int].0);
                assert(size == old(self).size_table()[i as int].1);
                assert(self.size_table()[i as int] == (
                    old(self).size_table()[i as int].0,
                    if old(self).short_count(old(self).size_table()[i as int].0) == 0 {
                        old(self).size_table()[i as int].1
                    } else {
                        (old(self).size_table()[i as int].1 as nat / old(self).short_count(old(self).size_table()[i as int].0)) as usize
                    },
                ));
                assert forall|k: int| 0 <= k < i implies #[trigger] self.size_table()[k] == before[k] by {}
            }
            i = i + 1;
        }
        proof {
            assert(self@ =~= old(self)@);
            assert forall|name: Seq<char>| #[trigger] self.short_count(name) == old(self).short_count(name) by {
                assert(self@.nodes.filter(|v: nat| self.weight_of(v).short_spec() == name)
                    =~= old(self)@.nodes.filter(|v: nat| old(self).weight_of(v).short_spec() == name));
            }
        }
    }

    /// The view a graph store would have, with `root` and no `std` node.
    pub open spec fn view_of(inner: Pg, root: usize) -> GraphView {
        GraphView { nodes: pg_nodes(inner).dom(), edges: pg_edge_set(inner), root: root as nat, std: None }
    }

    /// The store's parts are consistent: every weight index has its entry,
    /// every edge joins two distinct present nodes, no two edges join the same
    /// pair, and `root` is present.
    pub open spec fn parts_ok(inner: Pg, n_weights: nat, n_edge_weights: nat, root: usize) -> bool {
        let nodes = pg_nodes(inner);
        let edges = pg_edges(inner);
        &&& nodes.dom().finite()
        &&& edges.dom().finite()
        &&& forall|v: nat| #[trigger] nodes.contains_key(v) ==> v < usize::MAX && nodes[v] < n_weights
        &&& forall|e: nat|
            #[trigger] edges.contains_key(e) ==> {
                &&& nodes.contains_key(edges[e].0)
                &&& nodes.contains_key(edges[e].1)
                &&& edges[e].0 != edges[e].1
                &&& edges[e].2 < n_edge_weights
            }
        &&& forall|e1: nat, e2: nat|
            #[trigger] edges.contains_key(e1) && #[trigger] edges.contains_key(e2) && edges[e1].0
                == edges[e2].0 && edges[e1].1 == edges[e2].1 ==> e1 == e2
        &&& nodes.contains_key(root as nat)
    }

    /// The graph of a consistent store, with an empty size table, or `None`
    /// when its edges form a cycle.
    pub(crate) fn from_parts(inner: Pg, weights: Vec<NodeWeight>, edge_weights: Vec<EdgeWeight>, root: usize) -> (r: Option<Graph>)
        requires
            Self::parts_ok(inner, weights@.len(), edge_weights@.len(), root),
        ensures
            match r {
                Some(g) => {
                    &&& g.wf()
                    &&& g@ == Self::view_of(inner, root)
                    &&& g.size_table().len() == 0
                    &&& forall|v: nat| #[trigger] g@.nodes.contains(v) ==> g.weight_of(v) == weights@[pg_nodes(inner)[v] as int]
                    &&& (pg_nodes(inner).dom().len() == pg_node_slots(inner) ==> g.no_vacancy())
                    &&& forall|e: nat| #[trigger] pg_edges(inner).contains_key(e) ==> g.edge_weight_of(pg_edges(inner)[e].0, pg_edges(inner)[e].1)
                        == edge_weights@[pg_edges(inner)[e].2 as int]
                },
                None => !Self::view_of(inner, root).acyclic(),
            },
    {
        let order = pg_topo(&inner);
        let idx = pg_node_indices(&inner);
        match first_missing(&order, &idx) {
            Some(v) => {
                proof {
                    assert(pg_nodes(inner).contains_key(v as nat));
                    let g = Self::view_of(inner, root);
                    if g.acyclic() {
                        let rank = choose|rank: spec_fn(nat) -> nat| #[trigger] g.ranked_by(rank);
                        assert(Self::view_of(inner, 0).ranked_by(rank)) by {
                            assert(Self::view_of(inner, 0).edges == g.edges);
                        }
                        Self::lemma_topo_complete_by(inner, order@, rank, v as nat);
                    }
                }
                None
            },
            None => {
                let ghost pos = |v: nat| (choose|k: int| 0 <= k < order@.len() && order@[k] as nat == v) as nat;
                proof {
                    assert forall|v: nat| pg_nodes(inner).contains_key(v) implies order@.contains(v as usize) by {
                        let k = choose|k: int| 0 <= k < idx@.len() && idx@[k] == v;
                    }
                    Self::lemma_order_ranks(inner, order@, pos);
                }
                let g = Graph {
                    inner,
                    weights,
                    edge_weights,
                    size_map: Vec::new(),
                    std: None,
                    root,
                    rank: Ghost(pos),
                };
                proof {
                    g.lemma_inv_wf();
                    assert(g@ =~= Self::view_of(g.inner, root));
                    assert forall|e: nat| #[trigger] pg_edges(g.inner).contains_key(e) implies g.edge_weight_of(pg_edges(g.inner)[e].0, pg_edges(g.inner)[e].1)
                        == g.edge_weights@[pg_edges(g.inner)[e].2 as int] by {
                        let a = pg_edges(g.inner)[e].0;
                        let b = pg_edges(g.inner)[e].1;
                        let e2 = choose|e2: nat| #[trigger]
                            pg_edges(g.inner).contains_key(e2) && pg_edges(g.inner)[e2].0 == a && pg_edges(g.inner)[e2].1 == b;
                        assert(e2 == e);
                    }
                }
                Some(g)
            },
        }
    }

    proof fn lemma_order_ranks(inner: Pg, order: Seq<usize>, pos: spec_fn(nat) -> nat)
        requires
            forall|v: nat| pg_nodes(inner).contains_key(v) ==> order.contains(v as usize),
            forall|e: nat| #[trigger] pg_edges(inner).contains_key(e) ==> pg_nodes(inner).contains_key(pg_edges(inner)[e].0)
                && pg_nodes(inner).contains_key(pg_edges(inner)[e].1),
            forall|v: nat| #[trigger] pg_nodes(inner).contains_key(v) ==> v < usize::MAX,
            forall|a: int, b: int| 0 <= a < b < order.len() ==> order[a] != order[b],
            forall|b: int, u: nat|
                0 <= b < order.len() && #[trigger] pg_has_edge(inner, u, order[b] as nat) ==> exists|a: int|
                    0 <= a < b && order[a] == u,
            pos == (|v: nat| (choose|k: int| 0 <= k < order.len() && order[k] as nat == v) as nat),
        ensures
            forall|e: nat| #[trigger] pg_edges(inner).contains_key(e) ==> pos(pg_edges(inner)[e].0) < pos(pg_edges(inner)[e].1),
    {
        assert forall|e: nat| #[trigger] pg_edges(inner).contains_key(e) implies pos(pg_edges(inner)[e].0) < pos(pg_edges(inner)[e].1) by {
            let a = pg_edges(inner)[e].0;
            let b = pg_edges(inner)[e].1;
            assert(order.contains(a as usize));
            assert(order.contains(b as usize));
            let ka = choose|k: int| 0 <= k < order.len() && order[k] as nat == a;
            let kb = choose|k: int| 0 <= k < order.len() && order[k] as nat == b;
            assert(pg_has_edge(inner, a, order[kb] as nat));
            let k = choose|k: int| 0 <= k < kb && order[k] == a;
            if k != ka {
                assert(order[k] == order[ka]);
            }
        }
    }

    proof fn lemma_topo_complete_by(inner: Pg, r: Seq<usize>, rank: spec_fn(nat) -> nat, v: nat)
        requires
            Self::view_of(inner, 0).ranked_by(rank),
            forall|w: nat|
                pg_nodes(inner).contains_key(w) && !r.contains(w as usize) ==> exists|u: nat|
                    #[trigger] pg_has_edge(inner, u, w) && !r.contains(u as usize),
            pg_nodes(inner).contains_key(v),
            forall|w: nat| #[trigger] pg_nodes(inner).contains_key(w) ==> w < usize::MAX,
            forall|e: nat| #[trigger] pg_edges(inner).contains_key(e) ==> pg_nodes(inner).contains_key(pg_edges(inner)[e].0),
        ensures
            r.contains(v as usize),
        decreases rank(v),
    {
        if !r.contains(v as usize) {
            let u = choose|u: nat| #[trigger] pg_has_edge(inner, u, v) && !r.contains(u as usize);
            let e = choose|e: nat| #[trigger]
                pg_edges(inner).contains_key(e) && pg_edges(inner)[e].0 == u && pg_edges(inner)[e].1 == v;
            assert(Self::view_of(inner, 0).edges.contains((u, v)));
            Self::lemma_topo_complete_by(inner, r, rank, u);
        }
    }

    /// Replaces the size table.
    pub(crate) fn set_size_map(&mut self, table: Vec<(String, usize)>)
        requires
            old(self).wf(),
        ensures
            final(self).wf(),
            final(self)@ == old(self)@,
            forall|v: nat| #[trigger] final(self)@.nodes.contains(v) ==> final(self).weight_of(v) == old(self).weight_of(v),
            final(self).size_table() == table@.map_values(|e: (String, usize)| (e.0@, e.1)),
            forall|a: nat, b: nat| #[trigger] final(self).edge_weight_of(a, b) == old(self).edge_weight_of(a, b),
            forall|name: Seq<char>| #[trigger] final(self).short_count(name) == old(self).short_count(name),
            final(self).no_vacancy() == old(self).no_vacancy(),
    {
        self.size_map = table;
        proof {
            assert forall|name: Seq<char>| #[trigger] self.short_count(name) == old(self).short_count(name) by {
                assert(self@.nodes.filter(|v: nat| self.weight_of(v).short_spec() == name)
                    =~= old(self)@.nodes.filter(|v: nat| old(self).weight_of(v).short_spec() == name));
            }
        }
    }

    /// The dependency relation from `source` to `target`, if there is one.
    pub fn edge_weight(&self, source: usize, target: usize) -> (r: Option<&EdgeWeight>)
        requires
            self.wf(),
        ensures
            r is Some <==> self@.edges.contains((source as nat, target as nat)),
            r is Some ==> *r->0 == self.edge_weight_of(source as nat, target as nat),
    {
        match pg_find_edge(&self.inner, source, target) {
            Some(e) => {
                proof {
                    self.lemma_edge_weight_of(e as nat);
                }
                let w = pg_edge_weight(&self.inner, e).unwrap();
                Some(&self.edge_weights[w])
            },
            None => None,
        }
    }

    /// The nodes whose full name starts with `prefix`, in increasing order.
    pub fn matched_node_indices(&self, prefix: &str) -> (r: Vec<usize>)
        requires
            self.wf(),
        ensures
            forall|v: nat| index_set(r@).contains(v) <==> self@.nodes.contains(v) && is_prefix(prefix@, self.weight_of(v).full_spec()),
            forall|a: int, b: int| 0 <= a < b < r@.len() ==> r@[a] < r@[b],
    {
        let p = chars_of(prefix);
        let idx = pg_node_indices(&self.inner);
        let mut r: Vec<usize> = Vec::new();
        let mut i: usize = 0;
        while i < idx.len()
            invariant
                i <= idx@.len(),
                self.wf(),
                p@ == prefix@,
                forall|v: nat| pg_nodes(self.inner).contains_key(v) <==> exists|k: int| 0 <= k < idx@.len() && idx@[k] == v,
                forall|v: nat| index_set(r@).contains(v) <==> (exists|k: int| 0 <= k < i && idx@[k] == v)
                    && self@.nodes.contains(v) && is_prefix(prefix@, self.weight_of(v).full_spec()),
                forall|a: int, b: int| 0 <= a < b < idx@.len() ==> idx@[a] < idx@[b],
                forall|a: int, b: int| 0 <= a < b < r@.len() ==> r@[a] < r@[b],
                r@.len() > 0 ==> exists|k: int| 0 <= k < i && r@[r@.len() - 1] == idx@[k],
            decreases idx.len() - i,
        {
            let v = idx[i];
            proof {
                assert(pg_nodes(self.inner).contains_key(v as nat));
            }
            let w = pg_node_weight(&self.inner, v).unwrap();
            let full = chars_of(self.weights[w].full.as_str());
            let ghost before = r@;
            if starts_with_chars(&full, &p) {
                proof {
                    if before.len() > 0 {
                        let k = choose|k: int| 0 <= k < i && before[before.len() - 1] == idx@[k];
                        assert(idx@[k] < idx@[i as int]);
                    }
                }
                r.push(v);
            }
            proof {
                assert forall|x: nat| index_set(r@).contains(x) <==> (exists|k: int| 0 <= k < i + 1 && idx@[k] == x)
                    && self@.nodes.contains(x) && is_prefix(prefix@, self.weight_of(x).full_spec()) by {
                    if index_set(r@).contains(x) {
                        let j = choose|j: int| 0 <= j < r@.len() && r@[j] as nat == x;
                        if j < before.len() {
                            assert(index_set(before).contains(x));
                        }
                    }
                    if (exists|k: int| 0 <= k < i + 1 && idx@[k] == x) && self@.nodes.contains(x) && is_prefix(prefix@, self.weight_of(x).full_spec()) {
                        let k = choose|k: int| 0 <= k < i + 1 && idx@[k] == x;
                        if k < i {
                            assert(index_set(before).contains(x));
                            let j = choose|j: int| 0 <= j < before.len() && before[j] as nat == x;
                            assert(r@[j] as nat == x);
                        } else {
                            assert(r@[r@.len() - 1] as nat == x);
                        }
                    }
                }
            }
            i = i + 1;
        }
        proof {
            assert forall|v: nat| self@.nodes.contains(v) implies exists|k: int| 0 <= k < i && idx@[k] == v by {
                let k = choose|k: int| 0 <= k < idx@.len() && idx@[k] == v;
            }
        }
        r
    }

    /// The one node whose full name starts with `prefix`: an error when there
    /// is none, or several (listed).
    pub fn select_node(&self, prefix: &str) -> (r: Result<usize, SelectorError>)
        requires
            self.wf(),
        ensures
            match r {
                Ok(v) => self@.nodes.contains(v as nat) && is_prefix(prefix@, self.weight_of(v as nat).full_spec())
                    && forall|u: nat| self@.nodes.contains(u) && is_prefix(prefix@, self.weight_of(u).full_spec()) ==> u == v,
                Err(SelectorError::NotFound) => forall|u: nat| self@.nodes.contains(u) ==> !is_prefix(prefix@, self.weight_of(u).full_spec()),
                Err(SelectorError::Ambiguous(vs)) => vs@.len() > 1 && (forall|a: int, b: int| 0 <= a < b < vs@.len() ==> vs@[a] != vs@[b])
                    && forall|u: nat| index_set(vs@).contains(u) <==> self@.nodes.contains(u)
                    && is_prefix(prefix@, self.weight_of(u).full_spec()),
            },
    {
        let found = self.matched_node_indices(prefix);
        if found.len() == 0 {
            proof {
                assert forall|u: nat| self@.nodes.contains(u) implies !is_prefix(prefix@, self.weight_of(u).full_spec()) by {
                    if is_prefix(prefix@, self.weight_of(u).full_spec()) {
                        assert(index_set(found@).contains(u));
                    }
                }
            }
            Err(SelectorError::NotFound)
        } else if found.len() == 1 {
            let v = found[0];
            proof {
                assert(index_set(found@).contains(v as nat));
            }
            Ok(v)
        } else {
            Err(SelectorError::Ambiguous(found))
        }
    }

    /// Removes the nodes whose value in `values` (by node index) is below
    /// `threshold`, but the root and `std`, then every node that can no longer
    /// be reached from the root.
    pub fn remove_small_deps(&mut self, values: &Vec<usize>, threshold: usize)
        requires
            old(self).wf(),
        ensures
            final(self).wf(),
            final(self)@ == old(self)@.without(small_set(old(self)@, values@, threshold)).pruned(),
            final(self)@.all_reachable(),
            final(self).same_tables(old(self)),
            final(self).edges_kept(old(self)),
    {
        let ghost g0 = self@;
        let idx = self.node_indices();
        let mut small: Vec<usize> = Vec::new();
        let mut i: usize = 0;
        while i < idx.len()
            invariant
                i <= idx@.len(),
                self.wf(),
                self@ == g0,
                forall|v: nat| g0.nodes.contains(v) <==> index_set(idx@).contains(v),
                forall|v: nat| index_set(small@).contains(v) <==> (exists|k: int| 0 <= k < i && idx@[k] as nat == v)
                    && small_set(g0, values@, threshold).contains(v),
            decreases idx.len() - i,
        {
            let v = idx[i];
            let ghost before = small@;
            let is_std = match self.std {
                Some(s) => s == v,
                None => false,
            };
            if v < values.len() && values[v] < threshold && v != self.root && !is_std {
                small.push(v);
            }
            proof {
                assert(index_set(idx@).contains(v as nat));
                assert forall|x: nat| index_set(small@).contains(x) <==> (exists|k: int| 0 <= k < i + 1 && idx@[k] as nat == x)
                    && small_set(g0, values@, threshold).contains(x) by {
                    if index_set(small@).contains(x) {
                        let j = choose|j: int| 0 <= j < small@.len() && small@[j] as nat == x;
                        if j < before.len() {
                            assert(index_set(before).contains(x));
                        } else {
                            assert(idx@[i as int] as nat == x);
                        }
                    }
                    if (exists|k: int| 0 <= k < i + 1 && idx@[k] as nat == x) && small_set(g0, values@, threshold).contains(x) {
                        let k = choose|k: int| 0 <= k < i + 1 && idx@[k] as nat == x;
                        if k < i {
                            assert(index_set(before).contains(x));
                            let j = choose|j: int| 0 <= j < before.len() && before[j] as nat == x;
                            assert(small@[j] as nat == x);
                        } else {
                            assert(small@[small@.len() - 1] as nat == x);
                        }
                    }
                }
            }
            i = i + 1;
        }
        proof {
            assert(index_set(small@) =~= small_set(g0, values@, threshold)) by {
                assert forall|v: nat| small_set(g0, values@, threshold).contains(v) implies index_set(small@).contains(v) by {
                    assert(index_set(idx@).contains(v));
                    let k = choose|k: int| 0 <= k < idx@.len() && idx@[k] as nat == v;
                }
            }
        }
        proof {
            assert(removable(g0, small@) =~= small_set(g0, values@, threshold));
        }
        self.remove_indices(small.as_slice());
    }

    /// Removes the nodes whose full name starts with one of `patterns`, but
    /// the root and `std`, then every node that can no longer be reached from
    /// the root.
    pub fn remove_excluded_deps(&mut self, patterns: &Vec<String>)
        requires
            old(self).wf(),
        ensures
            final(self).wf(),
            final(self)@ == old(self)@.without(excluded_set(*old(self), patterns@.map_values(|p: String| p@))).pruned(),
            final(self)@.all_reachable(),
            final(self).same_tables(old(self)),
            final(self).edges_kept(old(self)),
    {
        let ghost g0 = *self;
        let ghost ps = patterns@.map_values(|p: String| p@);
        let mut list: Vec<usize> = Vec::new();
        let mut i: usize = 0;
        while i < patterns.len()
            invariant
                i <= patterns@.len(),
                self.wf(),
                *self == g0,
                ps == patterns@.map_values(|p: String| p@),
                forall|v: nat| #[trigger] index_set(list@).contains(v) <==> self@.nodes.contains(v) && v != self@.root
                    && self@.std != Some(v) && exists|k: int| 0 <= k < i && is_prefix(ps[k], self.weight_of(v).full_spec()),
            decreases patterns.len() - i,
        {
            let found = self.matched_node_indices(patterns[i].as_str());
            let ghost before = list@;
            let mut j: usize = 0;
            while j < found.len()
                invariant
                    j <= found@.len(),
                    i < patterns@.len(),
                    self.wf(),
                    *self == g0,
                    ps == patterns@.map_values(|p: String| p@),
                    forall|v: nat| index_set(found@).contains(v) <==> self@.nodes.contains(v) && is_prefix(ps[i as int], self.weight_of(v).full_spec()),
                    forall|v: nat| #[trigger] index_set(list@).contains(v) <==> index_set(before).contains(v)
                        || ((exists|q: int| 0 <= q < j && found@[q] as nat == v) && v != self@.root && self@.std != Some(v)),
                decreases found.len() - j,
            {
                let x = found[j];
                let ghost lb = list@;
                let is_std = match self.std {
                    Some(s) => s == x,
                    None => false,
                };
                if x != self.root && !is_std {
                    list.push(x);
                }
                proof {
                    assert forall|v: nat| #[trigger] index_set(list@).contains(v) <==> index_set(before).contains(v)
                        || ((exists|q: int| 0 <= q < j + 1 && found@[q] as nat == v) && v != self@.root && self@.std != Some(v)) by {
                        if index_set(list@).contains(v) {
                            let t = choose|t: int| 0 <= t < list@.len() && list@[t] as nat == v;
                            if t < lb.len() {
                                assert(index_set(lb).contains(v));
                            }
                        }
                        if index_set(lb).contains(v) {
                            let t = choose|t: int| 0 <= t < lb.len() && lb[t] as nat == v;
                            assert(list@[t] as nat == v);
                        }
                        if (exists|q: int| 0 <= q < j + 1 && found@[q] as nat == v) && v != self@.root && self@.std != Some(v) {
                            let q = choose|q: int| 0 <= q < j + 1 && found@[q] as nat == v;
                            if q == j {
                                assert(list@[list@.len() - 1] as nat == v);
                            } else {
                                assert(index_set(lb).contains(v));
                                let t = choose|t: int| 0 <= t < lb.len() && lb[t] as nat == v;
                                assert(list@[t] as nat == v);
                            }
                        }
                    }
                }
                j = j + 1;
            }
            proof {
                assert(ps[i as int] == patterns@[i as int]@);
                assert forall|v: nat| #[trigger] index_set(list@).contains(v) <==> self@.nodes.contains(v) && v != self@.root
                    && self@.std != Some(v) && exists|k: int| 0 <= k < i + 1 && is_prefix(ps[k], self.weight_of(v).full_spec()) by {
                    if index_set(list@).contains(v) && !index_set(before).contains(v) {
                        let q = choose|q: int| 0 <= q < found@.len() && found@[q] as nat == v;
                        assert(index_set(found@).contains(v));
                    }
                    if self@.nodes.contains(v) && v != self@.root && self@.std != Some(v)
                        && exists|k: int| 0 <= k < i + 1 && is_prefix(ps[k], self.weight_of(v).full_spec()) {
                        let k = choose|k: int| 0 <= k < i + 1 && is_prefix(ps[k], self.weight_of(v).full_spec());
                        if k == i {
                            assert(index_set(found@).contains(v));
                            let q = choose|q: int| 0 <= q < found@.len() && found@[q] as nat == v;
                        }
                    }
                }
            }
            i = i + 1;
        }
        proof {
            assert(removable(g0@, list@) =~= excluded_set(g0, ps));
            assert(!index_set(list@).contains(g0@.root));
        }
        self.remove_indices(list.as_slice());
    }

    /// The byte count that the size table gives for the short name `name`.
    pub fn size_of_name(&self, name: &str) -> (r: Option<usize>)
        ensures
            r == lookup_size(self.size_table(), name@),
    {
        let key = String::from_str(name);
        let ghost table = self.size_table();
        let mut i: usize = 0;
        proof {
            assert(table.subrange(0, table.len() as int) =~= table);
        }
        while i < self.size_map.len()
            invariant
                i <= self.size_map@.len(),
                table == self.size_table(),
                table.len() == self.size_map@.len(),
                key@ == name@,
                lookup_size(table, name@) == lookup_size(table.subrange(i as int, table.len() as int), name@),
            decreases self.size_map.len() - i,
        {
            let ghost rest = table.subrange(i as int, table.len() as int);
            proof {
                assert(rest[0] == table[i as int]);
            }
            if self.size_map[i].0 == key {
                return Some(self.size_map[i].1);
            }
            proof {
                assert(rest.drop_first() =~= table.subrange(i + 1, table.len() as int));
            }
            i = i + 1;
        }
        None
    }
}

} // verus!
