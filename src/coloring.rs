//! Metrics for colouring the nodes: cumulative apportioned size, dependency
//! count, reverse dependency count, and the highlight groups.

use crate::graph::{index_set, lemma_within_first, lemma_within_prepend, lookup_size, Graph, GraphView};
use crate::pgraph::{reaches, within};
use vstd::prelude::*;

verus! {

/// The sum of `f` over the finite set `s`.
pub open spec fn sum_over(s: Set<nat>, f: spec_fn(nat) -> int) -> int {
    s.fold(0int, |acc: int, x: nat| acc + f(x))
}

/// `x`, or `usize::MAX` where `x` does not fit: counts and sizes that would
/// overflow stay at the largest value.
pub open spec fn sat(x: int) -> usize {
    if x >= usize::MAX {
        usize::MAX
    } else if x <= 0 {
        0
    } else {
        x as usize
    }
}

proof fn lemma_sum_commutative(f: spec_fn(nat) -> int)
    ensures
        vstd::set::fold::is_fun_commutative(|acc: int, x: nat| acc + f(x)),
{
}

pub proof fn lemma_sum_empty(f: spec_fn(nat) -> int)
    ensures
        sum_over(Set::empty(), f) == 0,
{
    vstd::set::fold::lemma_fold_empty(0int, |acc: int, x: nat| acc + f(x));
}

pub proof fn lemma_sum_insert(s: Set<nat>, f: spec_fn(nat) -> int, x: nat)
    requires
        s.finite(),
        !s.contains(x),
    ensures
        sum_over(s.insert(x), f) == sum_over(s, f) + f(x),
{
    lemma_sum_commutative(f);
    vstd::set::fold::lemma_fold_insert(s, 0int, |acc: int, x: nat| acc + f(x), x);
}

/// Sums of functions that agree on the set are equal.
pub proof fn lemma_sum_congr(s: Set<nat>, f: spec_fn(nat) -> int, g: spec_fn(nat) -> int)
    requires
        s.finite(),
        forall|x: nat| s.contains(x) ==> f(x) == g(x),
    ensures
        sum_over(s, f) == sum_over(s, g),
    decreases s.len(),
{
    if s.len() == 0 {
        assert(s =~= Set::empty());
        lemma_sum_empty(f);
        lemma_sum_empty(g);
    } else {
        let x = s.choose();
        let rest = s.remove(x);
        lemma_sum_congr(rest, f, g);
        assert(rest.insert(x) =~= s);
        lemma_sum_insert(rest, f, x);
        lemma_sum_insert(rest, g, x);
    }
}

/// Sums of functions that are never negative are never negative.
pub proof fn lemma_sum_nonneg(s: Set<nat>, f: spec_fn(nat) -> int)
    requires
        s.finite(),
        forall|x: nat| s.contains(x) ==> f(x) >= 0,
    ensures
        sum_over(s, f) >= 0,
    decreases s.len(),
{
    if s.len() == 0 {
        assert(s =~= Set::empty());
        lemma_sum_empty(f);
    } else {
        let x = s.choose();
        let rest = s.remove(x);
        lemma_sum_nonneg(rest, f);
        assert(rest.insert(x) =~= s);
        lemma_sum_insert(rest, f, x);
    }
}

/// A node's own value.
pub open spec fn val_term(vals: Seq<usize>) -> spec_fn(nat) -> int {
    |u: nat| vals[u as int] as int
}

/// One for the root, whose one path from the root is the empty one.
pub open spec fn root_seed(g: GraphView, v: nat) -> int {
    if v == g.root {
        1
    } else {
        0
    }
}

/// Each node's reverse dependency count is the number of paths from the root
/// to it: one for the root, and for any other node the sum of the counts of
/// its direct dependents.
pub open spec fn rev_dep_counts_spec(g: GraphView, vals: Seq<usize>) -> bool {
    forall|v: nat| #[trigger]
        g.nodes.contains(v) ==> v < vals.len() && vals[v as int] == sat(
            root_seed(g, v) + sum_over(g.parents(v), val_term(vals)),
        )
}

/// The size a node starts with: its entry in the size table, or zero.
pub open spec fn start_size(g: &Graph, v: nat) -> int {
    match lookup_size(g.size_table(), g.weight_of(v).short_spec()) {
        Some(s) => s as int,
        None => 0,
    }
}

/// A dependency's share in a dependent's cumulative size: its own cumulative
/// size divided (rounding down) by the number of its dependents.
pub open spec fn share_term(g: GraphView, vals: Seq<usize>) -> spec_fn(nat) -> int {
    |c: nat| (vals[c as int] as int) / (g.parents(c).len() as int)
}

/// Each node's cumulative size is its own size plus, over its direct
/// dependencies, each one's cumulative size divided among its dependents.
pub open spec fn cum_sums_spec(g: GraphView, size: spec_fn(nat) -> int, vals: Seq<usize>) -> bool {
    forall|v: nat| #[trigger]
        g.nodes.contains(v) ==> v < vals.len() && vals[v as int] == sat(
            size(v) + sum_over(g.children(v), share_term(g, vals)),
        )
}

/// On a diamond `a -> b`, `a -> c`, `b -> d`, `c -> d`, the size of `d` is
/// shared out half to `b` and half to `c`, and the cumulative size of `a` is
/// the sum of all four sizes where `d`'s size is even (halving rounds down,
/// so an odd size loses one byte); no sum may saturate.
pub proof fn lemma_diamond_conservation(
    g: GraphView,
    size: spec_fn(nat) -> int,
    vals: Seq<usize>,
    a: nat,
    b: nat,
    c: nat,
    d: nat,
)
    requires
        a != b && a != c && a != d && b != c && b != d && c != d,
        g.nodes == set![a, b, c, d],
        g.edges == set![(a, b), (a, c), (b, d), (c, d)],
        cum_sums_spec(g, size, vals),
        size(a) >= 0 && size(b) >= 0 && size(c) >= 0 && size(d) >= 0,
        size(a) + size(b) + size(c) + size(d) < usize::MAX,
    ensures
        vals[d as int] == size(d),
        vals[b as int] == size(b) + size(d) / 2,
        vals[c as int] == size(c) + size(d) / 2,
        vals[a as int] == size(a) + size(b) + size(c) + 2 * (size(d) / 2),
        size(d) % 2 == 0 ==> vals[a as int] == size(a) + size(b) + size(c) + size(d),
{
    let f = share_term(g, vals);
    assert(g.nodes.contains(a) && g.nodes.contains(b) && g.nodes.contains(c) && g.nodes.contains(d));
    assert(g.children(d) =~= Set::empty());
    lemma_sum_empty(f);
    assert(g.parents(d) =~= set![b, c]);
    assert(g.parents(b) =~= set![a]);
    assert(g.parents(c) =~= set![a]);
    assert(set![b, c].len() == 2);
    assert(set![a].len() == 1);
    assert(g.children(b) =~= Set::<nat>::empty().insert(d));
    lemma_sum_insert(Set::empty(), f, d);
    assert(g.children(c) =~= Set::<nat>::empty().insert(d));
    assert(g.children(a) =~= Set::<nat>::empty().insert(b).insert(c));
    lemma_sum_insert(Set::empty(), f, b);
    lemma_sum_insert(Set::<nat>::empty().insert(b), f, c);
}

/// A dependency's share in its dependent's count: its own count, plus one for
/// the relation itself.
pub open spec fn count_term(vals: Seq<usize>) -> spec_fn(nat) -> int {
    |t: nat| vals[t as int] + 1
}

/// Each node's dependency count is the number of dependency relations
/// reachable from it: over its direct dependencies `t`, the sum of `t`'s count
/// plus one.
pub open spec fn dep_counts_spec(g: GraphView, vals: Seq<usize>) -> bool {
    forall|v: nat| #[trigger]
        g.nodes.contains(v) ==> v < vals.len() && vals[v as int] == sat(
            sum_over(g.children(v), count_term(vals)),
        )
}

/// The largest of `vals`.
pub open spec fn is_max(vals: Seq<usize>, m: usize) -> bool {
    (exists|i: int| 0 <= i < vals.len() && vals[i] == m) && forall|i: int|
        0 <= i < vals.len() ==> vals[i] <= m
}

/// What the nodes are coloured by.
#[derive(Clone, Copy, Debug, PartialEq, Eq, Structural)]
pub enum NodeColoringScheme {
    CumSum,
    DepCount,
    RevDepCount,
}

/// One metric for every node index of a graph, with its largest value.
pub struct NodeColoringValues {
    values: Vec<usize>,
    max: usize,
    scheme: NodeColoringScheme,
}

fn max_of(values: &Vec<usize>) -> (r: usize)
    requires
        values@.len() > 0,
    ensures
        is_max(values@, r),
{
    let mut m = values[0];
    let mut i: usize = 1;
    while i < values.len()
        invariant
            1 <= i <= values@.len(),
            exists|k: int| 0 <= k < i && values@[k] == m,
            forall|k: int| 0 <= k < i ==> values@[k] <= m,
        decreases values.len() - i,
    {
        if values[i] > m {
            m = values[i];
        }
        i = i + 1;
    }
    m
}

impl NodeColoringValues {
    pub closed spec fn values_spec(&self) -> Seq<usize> {
        self.values@
    }

    pub closed spec fn max_spec(&self) -> usize {
        self.max
    }

    pub closed spec fn scheme_spec(&self) -> NodeColoringScheme {
        self.scheme
    }

    /// Dependency counts, computed from the dependencies up.
    pub fn dep_counts(graph: &Graph) -> (r: Self)
        requires
            graph.wf(),
        ensures
            dep_counts_spec(graph@, r.values_spec()),
            forall|v: nat| v < r.values_spec().len() && !graph@.nodes.contains(v) ==> r.values_spec()[v as int] == 0,
            is_max(r.values_spec(), r.max_spec()),
            r.scheme_spec() == NodeColoringScheme::DepCount,
    {
        let ghost g = graph@;
        let bound = graph.node_bound();
        let mut values: Vec<usize> = vec![0; bound];
        let order = graph.topo();
        let mut p: usize = order.len();
        let ghost mut done: Set<nat> = Set::empty();
        while p > 0
            invariant
                p <= order@.len(),
                g == graph@,
                graph.wf(),
                values@.len() == bound,
                forall|v: nat| #[trigger] g.nodes.contains(v) ==> v < bound,
                forall|i: int, j: int| 0 <= i < j < order@.len() ==> order@[i] != order@[j],
                forall|v: nat| g.nodes.contains(v) <==> crate::graph::index_set(order@).contains(v),
                forall|i: int, j: int|
                    0 <= i < order@.len() && 0 <= j < order@.len() && #[trigger] g.edges.contains((order@[i] as nat, order@[j] as nat)) ==> i < j,
                forall|v: nat| #[trigger] done.contains(v) <==> exists|k: int| p <= k < order@.len() && order@[k] as nat == v,
                forall|v: nat| #[trigger] g.nodes.contains(v) && done.contains(v) ==> values@[v as int] == sat(
                    sum_over(g.children(v), count_term(values@))),
                forall|v: nat| v < bound && !done.contains(v) ==> #[trigger] values@[v as int] == 0,
            decreases p,
        {
            p = p - 1;
            let n = order[p];
            proof {
                assert(crate::graph::index_set(order@).contains(n as nat));
            }
            let cs = graph.children(n);
            let ghost before = values@;
            let ghost mut acc: Set<nat> = Set::empty();
            let mut j: usize = 0;
            proof {
                assert(g.nodes.contains(n as nat));
                assert(!done.contains(n as nat)) by {
                    if done.contains(n as nat) {
                        let k = choose|k: int| p + 1 <= k < order@.len() && order@[k] as nat == n as nat;
                    }
                }
                lemma_sum_empty(count_term(values@));
            }
            while j < cs.len()
                invariant
                    j <= cs@.len(),
                    graph.wf(),
                    g == graph@,
                    values@.len() == bound,
                    n < bound,
                    forall|v: nat| #[trigger] g.nodes.contains(v) ==> v < bound,
                    crate::graph::index_set(cs@) == g.children(n as nat),
                    forall|a: int, b: int| 0 <= a < b < cs@.len() ==> cs@[a] != cs@[b],
                    acc.finite(),
                    forall|t: nat| #[trigger] acc.contains(t) <==> exists|k: int| 0 <= k < j && cs@[k] as nat == t,
                    forall|v: nat| v != n ==> #[trigger] values@[v as int] == before[v as int] || v >= bound,
                    values@[n as int] == sat(sum_over(acc, count_term(values@))),
                    sum_over(acc, count_term(values@)) >= 0,
                decreases cs.len() - j,
            {
                let t = cs[j];
                proof {
                    assert(crate::graph::index_set(cs@).contains(t as nat));
                    assert(g.edges.contains((n as nat, t as nat)));
                    assert(t != n);
                    assert(!acc.contains(t as nat)) by {
                        if acc.contains(t as nat) {
                            let k = choose|k: int| 0 <= k < j && cs@[k] as nat == t as nat;
                        }
                    }
                }
                let ghost old_vals = values@;
                let nv = values[n].saturating_add(values[t]).saturating_add(1);
                values.set(n, nv);
                proof {
                    let f0 = count_term(old_vals);
                    let f1 = count_term(values@);
                    assert forall|x: nat| acc.contains(x) implies f0(x) == f1(x) by {
                        let k = choose|k: int| 0 <= k < j && cs@[k] as nat == x;
                        assert(crate::graph::index_set(cs@).contains(x));
                        assert(g.edges.contains((n as nat, x)));
                        assert(x != n);
                    }
                    lemma_sum_congr(acc, f0, f1);
                    lemma_sum_insert(acc, f1, t as nat);
                    assert(f1(t as nat) == old_vals[t as int] + 1);
                    assert(old_vals[n as int] == sat(sum_over(acc, f0)));
                    let acc1 = acc.insert(t as nat);
                    assert forall|x: nat| #[trigger] acc1.contains(x) <==> exists|k: int| 0 <= k < j + 1 && cs@[k] as nat == x by {
                        if exists|k: int| 0 <= k < j + 1 && cs@[k] as nat == x {
                            let k = choose|k: int| 0 <= k < j + 1 && cs@[k] as nat == x;
                            if k < j {
                                assert(acc.contains(x));
                            }
                        }
                    }
                    acc = acc1;
                }
                j = j + 1;
            }
            proof {
                assert(acc =~= g.children(n as nat)) by {
                    assert forall|x: nat| acc.contains(x) <==> g.children(n as nat).contains(x) by {
                        if g.children(n as nat).contains(x) {
                            assert(crate::graph::index_set(cs@).contains(x));
                            let k = choose|k: int| 0 <= k < cs@.len() && cs@[k] as nat == x;
                        }
                    }
                }
                let done1 = done.insert(n as nat);
                assert forall|v: nat| #[trigger] done1.contains(v) <==> exists|k: int| p <= k < order@.len() && order@[k] as nat == v by {
                    if exists|k: int| p <= k < order@.len() && order@[k] as nat == v {
                        let k = choose|k: int| p <= k < order@.len() && order@[k] as nat == v;
                        if k > p {
                            assert(done.contains(v));
                        }
                    }
                }
                assert forall|v: nat| #[trigger] g.nodes.contains(v) && done1.contains(v) implies values@[v as int] == sat(
                    sum_over(g.children(v), count_term(values@))) by {
                    vstd::set_lib::lemma_set_subset_finite(g.nodes, g.children(v));
                    if v != n {
                        assert(done.contains(v));
                        let kv = choose|k: int| p < k < order@.len() && order@[k] as nat == v;
                        assert forall|x: nat| g.children(v).contains(x) implies count_term(before)(x) == count_term(values@)(x) by {
                            assert(g.nodes.contains(x));
                            let kx = choose|k: int| 0 <= k < order@.len() && order@[k] as nat == x;
                            assert(g.edges.contains((order@[kv] as nat, order@[kx] as nat)));
                            assert(kv < kx);
                        }
                        lemma_sum_congr(g.children(v), count_term(before), count_term(values@));
                    }
                }
                done = done1;
            }
        }
        proof {
            assert forall|v: nat| g.nodes.contains(v) implies done.contains(v) by {
                let k = choose|k: int| 0 <= k < order@.len() && order@[k] as nat == v;
            }
        }
        let max = max_of(&values);
        NodeColoringValues { values, max, scheme: NodeColoringScheme::DepCount }
    }

    /// Reverse dependency counts (paths from the root), computed from the
    /// root down.
    pub fn rev_dep_counts(graph: &Graph) -> (r: Self)
        requires
            graph.wf(),
        ensures
            rev_dep_counts_spec(graph@, r.values_spec()),
            forall|v: nat| v < r.values_spec().len() && !graph@.nodes.contains(v) ==> r.values_spec()[v as int] == 0,
            is_max(r.values_spec(), r.max_spec()),
            r.scheme_spec() == NodeColoringScheme::RevDepCount,
    {
        let ghost g = graph@;
        let bound = graph.node_bound();
        let mut values: Vec<usize> = vec![0; bound];
        let root = graph.root();
        values.set(root, 1);
        let order = graph.topo();
        let mut p: usize = 0;
        let ghost mut done: Set<nat> = Set::empty();
        proof {
            assert forall|v: nat| #[trigger] g.nodes.contains(v) implies values@[v as int] == sat(
                root_seed(g, v) + sum_over(g.parents(v).intersect(done), val_term(values@))) by {
                assert(g.parents(v).intersect(done) =~= Set::empty());
                lemma_sum_empty(val_term(values@));
            }
        }
        while p < order.len()
            invariant
                p <= order@.len(),
                g == graph@,
                graph.wf(),
                values@.len() == bound,
                forall|v: nat| #[trigger] g.nodes.contains(v) ==> v < bound,
                forall|i: int, j: int| 0 <= i < j < order@.len() ==> order@[i] != order@[j],
                forall|v: nat| g.nodes.contains(v) <==> crate::graph::index_set(order@).contains(v),
                forall|i: int, j: int|
                    0 <= i < order@.len() && 0 <= j < order@.len() && #[trigger] g.edges.contains((order@[i] as nat, order@[j] as nat)) ==> i < j,
                forall|v: nat| #[trigger] done.contains(v) <==> exists|k: int| 0 <= k < p && order@[k] as nat == v,
                forall|v: nat| #[trigger] g.nodes.contains(v) ==> values@[v as int] == sat(
                    root_seed(g, v) + sum_over(g.parents(v).intersect(done), val_term(values@))),
                forall|v: nat| v < bound && !g.nodes.contains(v) ==> #[trigger] values@[v as int] == 0,
            decreases order.len() - p,
        {
            let n = order[p];
            proof {
                assert(crate::graph::index_set(order@).contains(n as nat));
                assert(g.nodes.contains(n as nat));
                assert(!done.contains(n as nat)) by {
                    if done.contains(n as nat) {
                        let k = choose|k: int| 0 <= k < p && order@[k] as nat == n as nat;
                    }
                }
            }
            let ghost done1 = done.insert(n as nat);
            let cs = graph.children(n);
            let ghost mut acc: Set<nat> = Set::empty();
            let mut j: usize = 0;
            proof {
                assert forall|v: nat| #[trigger] g.nodes.contains(v) implies values@[v as int] == sat(
                    root_seed(g, v) + sum_over(g.parents(v).intersect(if acc.contains(v) { done1 } else { done }), val_term(values@))) by {}
            }
            while j < cs.len()
                invariant
                    j <= cs@.len(),
                    graph.wf(),
                    g == graph@,
                    values@.len() == bound,
                    n < bound,
                    g.nodes.contains(n as nat),
                    p < order@.len(),
                    order@[p as int] == n,
                    forall|v: nat| #[trigger] g.nodes.contains(v) ==> v < bound,
                    forall|i: int, j: int| 0 <= i < j < order@.len() ==> order@[i] != order@[j],
                    forall|v: nat| g.nodes.contains(v) <==> crate::graph::index_set(order@).contains(v),
                    forall|i: int, j: int|
                        0 <= i < order@.len() && 0 <= j < order@.len() && #[trigger] g.edges.contains((order@[i] as nat, order@[j] as nat)) ==> i < j,
                    forall|v: nat| #[trigger] done.contains(v) <==> exists|k: int| 0 <= k < p && order@[k] as nat == v,
                    !done.contains(n as nat),
                    done1 == done.insert(n as nat),
                    crate::graph::index_set(cs@) == g.children(n as nat),
                    forall|a: int, b: int| 0 <= a < b < cs@.len() ==> cs@[a] != cs@[b],
                    forall|t: nat| #[trigger] acc.contains(t) <==> exists|k: int| 0 <= k < j && cs@[k] as nat == t,
                    forall|v: nat| #[trigger] g.nodes.contains(v) ==> values@[v as int] == sat(
                        root_seed(g, v) + sum_over(g.parents(v).intersect(if acc.contains(v) { done1 } else { done }), val_term(values@))),
                    forall|v: nat| v < bound && !g.nodes.contains(v) ==> #[trigger] values@[v as int] == 0,
                decreases cs.len() - j,
            {
                let c = cs[j];
                let ghost old_vals = values@;
                proof {
                    assert(crate::graph::index_set(cs@).contains(c as nat));
                    assert(g.edges.contains((n as nat, c as nat)));
                    assert(g.nodes.contains(c as nat));
                    assert(c != n);
                    assert(!acc.contains(c as nat)) by {
                        if acc.contains(c as nat) {
                            let k = choose|k: int| 0 <= k < j && cs@[k] as nat == c as nat;
                        }
                    }
                    // `c` comes after `n`, so it is not done yet.
                    assert(!done1.contains(c as nat)) by {
                        let kc = choose|k: int| 0 <= k < order@.len() && order@[k] as nat == c as nat;
                        assert(g.edges.contains((order@[p as int] as nat, order@[kc] as nat)));
                        if done.contains(c as nat) {
                            let k = choose|k: int| 0 <= k < p && order@[k] as nat == c as nat;
                        }
                    }
                }
                let nv = values[c].saturating_add(values[n]);
                values.set(c, nv);
                proof {
                    let acc1 = acc.insert(c as nat);
                    let f0 = val_term(old_vals);
                    let f1 = val_term(values@);
                    assert forall|v: nat| #[trigger] g.nodes.contains(v) implies values@[v as int] == sat(
                        root_seed(g, v) + sum_over(g.parents(v).intersect(if acc1.contains(v) { done1 } else { done }), f1)) by {
                        vstd::set_lib::lemma_set_subset_finite(g.nodes, g.parents(v));
                        let ds = if acc.contains(v) { done1 } else { done };
                        let part = g.parents(v).intersect(ds);
                        assert(part.subset_of(g.nodes));
                        vstd::set_lib::lemma_set_subset_finite(g.nodes, part);
                        assert forall|x: nat| part.contains(x) implies f0(x) == f1(x) by {
                            assert(x != c as nat);
                        }
                        lemma_sum_congr(part, f0, f1);
                        lemma_sum_nonneg(part, f0);
                        if v == c as nat {
                            assert(!part.contains(n as nat));
                            assert(g.parents(v).intersect(done1) =~= part.insert(n as nat));
                            lemma_sum_insert(part, f1, n as nat);
                        }
                    }
                    assert forall|t: nat| #[trigger] acc1.contains(t) <==> exists|k: int| 0 <= k < j + 1 && cs@[k] as nat == t by {
                        if exists|k: int| 0 <= k < j + 1 && cs@[k] as nat == t {
                            let k = choose|k: int| 0 <= k < j + 1 && cs@[k] as nat == t;
                            if k < j {
                                assert(acc.contains(t));
                            }
                        }
                    }
                    acc = acc1;
                }
                j = j + 1;
            }
            proof {
                assert forall|v: nat| #[trigger] g.nodes.contains(v) implies values@[v as int] == sat(
                    root_seed(g, v) + sum_over(g.parents(v).intersect(done1), val_term(values@))) by {
                    if !acc.contains(v) {
                        assert(g.parents(v).intersect(done1) =~= g.parents(v).intersect(done)) by {
                            if g.parents(v).contains(n as nat) {
                                assert(g.children(n as nat).contains(v));
                                assert(crate::graph::index_set(cs@).contains(v));
                                let k = choose|k: int| 0 <= k < cs@.len() && cs@[k] as nat == v;
                                assert(acc.contains(v));
                            }
                        }
                    }
                }
                assert forall|v: nat| #[trigger] done1.contains(v) <==> exists|k: int| 0 <= k < p + 1 && order@[k] as nat == v by {
                    if exists|k: int| 0 <= k < p + 1 && order@[k] as nat == v {
                        let k = choose|k: int| 0 <= k < p + 1 && order@[k] as nat == v;
                        if k < p {
                            assert(done.contains(v));
                        }
                    }
                }
                done = done1;
            }
            p = p + 1;
        }
        proof {
            assert forall|v: nat| #[trigger] g.nodes.contains(v) implies g.parents(v).intersect(done) =~= g.parents(v) by {
                assert forall|u: nat| g.parents(v).contains(u) implies done.contains(u) by {
                    assert(g.nodes.contains(u));
                    let k = choose|k: int| 0 <= k < order@.len() && order@[k] as nat == u;
                }
            }
        }
        let max = max_of(&values);
        NodeColoringValues { values, max, scheme: NodeColoringScheme::RevDepCount }
    }

    /// Cumulative sizes: each crate's size, with each dependency's cumulative
    /// size shared out among its dependents (rounding down), computed from the
    /// dependencies up.
    pub fn cum_sums(graph: &Graph) -> (r: Self)
        requires
            graph.wf(),
        ensures
            cum_sums_spec(graph@, |v: nat| start_size(graph, v), r.values_spec()),
            forall|v: nat| v < r.values_spec().len() && !graph@.nodes.contains(v) ==> r.values_spec()[v as int] == 0,
            is_max(r.values_spec(), r.max_spec()),
            r.scheme_spec() == NodeColoringScheme::CumSum,
    {
        let ghost g = graph@;
        let ghost size = |v: nat| start_size(graph, v);
        let bound = graph.node_bound();
        let mut values: Vec<usize> = vec![0; bound];
        let idx = graph.node_indices();
        let mut q: usize = 0;
        while q < idx.len()
            invariant
                q <= idx@.len(),
                graph.wf(),
                g == graph@,
                size == (|v: nat| start_size(graph, v)),
                values@.len() == bound,
                forall|v: nat| #[trigger] g.nodes.contains(v) ==> v < bound,
                forall|v: nat| g.nodes.contains(v) <==> crate::graph::index_set(idx@).contains(v),
                forall|a: int, b: int| 0 <= a < b < idx@.len() ==> idx@[a] < idx@[b],
                forall|v: nat| #[trigger] g.nodes.contains(v) ==> values@[v as int] == (if exists|k: int| 0 <= k < q && idx@[k] as nat == v { size(v) } else { 0 }),
                forall|v: nat| v < bound && !g.nodes.contains(v) ==> #[trigger] values@[v as int] == 0,
            decreases idx.len() - q,
        {
            let v = idx[q];
            proof {
                assert(crate::graph::index_set(idx@).contains(v as nat));
                assert(g.nodes.contains(v as nat));
                assert(v < bound);
            }
            let s = match graph.size(v) {
                Some(s) => s,
                None => 0,
            };
            let ghost before = values@;
            values.set(v, s);
            proof {
                assert forall|x: nat| #[trigger] g.nodes.contains(x) implies values@[x as int] == (if exists|k: int| 0 <= k < q + 1 && idx@[k] as nat == x { size(x) } else { 0 }) by {
                    if x != v as nat {
                        if exists|k: int| 0 <= k < q + 1 && idx@[k] as nat == x {
                            let k = choose|k: int| 0 <= k < q + 1 && idx@[k] as nat == x;
                            assert(k < q);
                        }
                    } else {
                        assert(idx@[q as int] as nat == x);
                    }
                }
            }
            q = q + 1;
        }
        let order = graph.topo();
        let mut p: usize = order.len();
        let ghost mut done: Set<nat> = Set::empty();
        proof {
            assert forall|v: nat| #[trigger] g.nodes.contains(v) implies values@[v as int] == sat(
                size(v) + sum_over(g.children(v).intersect(done), share_term(g, values@))) by {
                let k = choose|k: int| 0 <= k < idx@.len() && idx@[k] as nat == v;
                assert(g.children(v).intersect(done) =~= Set::empty());
                lemma_sum_empty(share_term(g, values@));
                match lookup_size(graph.size_table(), graph.weight_of(v).short_spec()) {
                    Some(s) => {}
                    None => {}
                }
            }
        }
        while p > 0
            invariant
                p <= order@.len(),
                g == graph@,
                graph.wf(),
                size == (|v: nat| start_size(graph, v)),
                values@.len() == bound,
                forall|v: nat| #[trigger] g.nodes.contains(v) ==> v < bound,
                forall|i: int, j: int| 0 <= i < j < order@.len() ==> order@[i] != order@[j],
                forall|v: nat| g.nodes.contains(v) <==> crate::graph::index_set(order@).contains(v),
                forall|i: int, j: int|
                    0 <= i < order@.len() && 0 <= j < order@.len() && #[trigger] g.edges.contains((order@[i] as nat, order@[j] as nat)) ==> i < j,
                forall|v: nat| #[trigger] done.contains(v) <==> exists|k: int| p <= k < order@.len() && order@[k] as nat == v,
                forall|v: nat| #[trigger] g.nodes.contains(v) ==> values@[v as int] == sat(
                    size(v) + sum_over(g.children(v).intersect(done), share_term(g, values@))),
                forall|v: nat| v < bound && !g.nodes.contains(v) ==> #[trigger] values@[v as int] == 0,
            decreases p,
        {
            p = p - 1;
            let n = order[p];
            proof {
                assert(crate::graph::index_set(order@).contains(n as nat));
                assert(g.nodes.contains(n as nat));
                assert(!done.contains(n as nat)) by {
                    if done.contains(n as nat) {
                        let k = choose|k: int| p + 1 <= k < order@.len() && order@[k] as nat == n as nat;
                    }
                }
            }
            let ghost done1 = done.insert(n as nat);
            let ps = graph.parents(n);
            let count = ps.len();
            proof {
                crate::graph::lemma_index_set_len(ps@);
                assert(count == g.parents(n as nat).len());
            }
            let ghost mut acc: Set<nat> = Set::empty();
            let mut j: usize = 0;
            while j < ps.len()
                invariant
                    j <= ps@.len(),
                    count == ps@.len(),
                    count == g.parents(n as nat).len(),
                    graph.wf(),
                    g == graph@,
                    size == (|v: nat| start_size(graph, v)),
                    values@.len() == bound,
                    n < bound,
                    g.nodes.contains(n as nat),
                    p < order@.len(),
                    order@[p as int] == n,
                    forall|v: nat| #[trigger] g.nodes.contains(v) ==> v < bound,
                    forall|i: int, j: int| 0 <= i < j < order@.len() ==> order@[i] != order@[j],
                    forall|v: nat| g.nodes.contains(v) <==> crate::graph::index_set(order@).contains(v),
                    forall|i: int, j: int|
                        0 <= i < order@.len() && 0 <= j < order@.len() && #[trigger] g.edges.contains((order@[i] as nat, order@[j] as nat)) ==> i < j,
                    forall|v: nat| #[trigger] done.contains(v) <==> exists|k: int| p + 1 <= k < order@.len() && order@[k] as nat == v,
                    !done.contains(n as nat),
                    done1 == done.insert(n as nat),
                    crate::graph::index_set(ps@) == g.parents(n as nat),
                    forall|a: int, b: int| 0 <= a < b < ps@.len() ==> ps@[a] != ps@[b],
                    forall|t: nat| #[trigger] acc.contains(t) <==> exists|k: int| 0 <= k < j && ps@[k] as nat == t,
                    forall|v: nat| #[trigger] g.nodes.contains(v) ==> values@[v as int] == sat(
                        size(v) + sum_over(g.children(v).intersect(if acc.contains(v) { done1 } else { done }), share_term(g, values@))),
                    forall|v: nat| v < bound && !g.nodes.contains(v) ==> #[trigger] values@[v as int] == 0,
                decreases ps.len() - j,
            {
                let s = ps[j];
                let ghost old_vals = values@;
                proof {
                    assert(crate::graph::index_set(ps@).contains(s as nat));
                    assert(g.edges.contains((s as nat, n as nat)));
                    assert(g.nodes.contains(s as nat));
                    assert(s != n);
                    assert(!acc.contains(s as nat)) by {
                        if acc.contains(s as nat) {
                            let k = choose|k: int| 0 <= k < j && ps@[k] as nat == s as nat;
                        }
                    }
                    assert(!done1.contains(s as nat)) by {
                        let ks = choose|k: int| 0 <= k < order@.len() && order@[k] as nat == s as nat;
                        assert(g.edges.contains((order@[ks] as nat, order@[p as int] as nat)));
                        if done.contains(s as nat) {
                            let k = choose|k: int| p + 1 <= k < order@.len() && order@[k] as nat == s as nat;
                        }
                    }
                }
                let share = values[n] / count;
                let nv = values[s].saturating_add(share);
                values.set(s, nv);
                proof {
                    let acc1 = acc.insert(s as nat);
                    let f0 = share_term(g, old_vals);
                    let f1 = share_term(g, values@);
                    assert forall|v: nat| #[trigger] g.nodes.contains(v) implies values@[v as int] == sat(
                        size(v) + sum_over(g.children(v).intersect(if acc1.contains(v) { done1 } else { done }), f1)) by {
                        vstd::set_lib::lemma_set_subset_finite(g.nodes, g.children(v));
                        let ds = if acc.contains(v) { done1 } else { done };
                        let part = g.children(v).intersect(ds);
                        assert(part.subset_of(g.nodes));
                        vstd::set_lib::lemma_set_subset_finite(g.nodes, part);
                        assert forall|x: nat| part.contains(x) implies f0(x) == f1(x) by {
                            assert(x != s as nat);
                        }
                        lemma_sum_congr(part, f0, f1);
                        assert forall|x: nat| part.contains(x) implies f0(x) >= 0 by {
                            assert(g.parents(x).contains(v));
                            vstd::set_lib::lemma_set_subset_finite(g.nodes, g.parents(x));
                            vstd::set::axiom_set_contains_len(g.parents(x), v);
                        }
                        lemma_sum_nonneg(part, f0);
                        if v == s as nat {
                            assert(!part.contains(n as nat));
                            assert(g.children(v).intersect(done1) =~= part.insert(n as nat));
                            lemma_sum_insert(part, f1, n as nat);
                            assert(f1(n as nat) == share as int);
                            assert(size(v) >= 0) by {
                                match lookup_size(graph.size_table(), graph.weight_of(v).short_spec()) {
                                    Some(z) => {}
                                    None => {}
                                }
                            }
                        }
                    }
                    assert forall|t: nat| #[trigger] acc1.contains(t) <==> exists|k: int| 0 <= k < j + 1 && ps@[k] as nat == t by {
                        if exists|k: int| 0 <= k < j + 1 && ps@[k] as nat == t {
                            let k = choose|k: int| 0 <= k < j + 1 && ps@[k] as nat == t;
                            if k < j {
                                assert(acc.contains(t));
                            }
                        }
                    }
                    acc = acc1;
                }
                j = j + 1;
            }
            proof {
                assert forall|v: nat| #[trigger] g.nodes.contains(v) implies values@[v as int] == sat(
                    size(v) + sum_over(g.children(v).intersect(done1), share_term(g, values@))) by {
                    if !acc.contains(v) {
                        assert(g.children(v).intersect(done1) =~= g.children(v).intersect(done)) by {
                            if g.children(v).contains(n as nat) {
                                assert(g.parents(n as nat).contains(v));
                                assert(crate::graph::index_set(ps@).contains(v));
                                let k = choose|k: int| 0 <= k < ps@.len() && ps@[k] as nat == v;
                                assert(acc.contains(v));
                            }
                        }
                    }
                }
                assert forall|v: nat| #[trigger] done1.contains(v) <==> exists|k: int| p <= k < order@.len() && order@[k] as nat == v by {
                    if exists|k: int| p <= k < order@.len() && order@[k] as nat == v {
                        let k = choose|k: int| p <= k < order@.len() && order@[k] as nat == v;
                        if k > p {
                            assert(done.contains(v));
                        }
                    }
                }
                done = done1;
            }
        }
        proof {
            assert forall|v: nat| #[trigger] g.nodes.contains(v) implies g.children(v).intersect(done) =~= g.children(v) by {
                assert forall|u: nat| g.children(v).contains(u) implies done.contains(u) by {
                    assert(g.nodes.contains(u));
                    let k = choose|k: int| 0 <= k < order@.len() && order@[k] as nat == u;
                }
            }
        }
        let max = max_of(&values);
        NodeColoringValues { values, max, scheme: NodeColoringScheme::CumSum }
    }
}

impl NodeColoringValues {
    /// The metric of each node index (zero where there is no node).
    pub fn values(&self) -> (r: &Vec<usize>)
        ensures
            r@ == self.values_spec(),
    {
        &self.values
    }

    /// The largest metric.
    pub fn max(&self) -> (r: usize)
        ensures
            r == self.max_spec(),
    {
        self.max
    }

    /// What the metric is.
    pub fn scheme(&self) -> (r: NodeColoringScheme)
        ensures
            r == self.scheme_spec(),
    {
        self.scheme
    }
}

/// Values for the nodes of a graph, for labels and colours.
pub trait Values {
    type Context;
    type Value;
    type Output;

    fn context(&self) -> Self::Context;

    fn value(&self, index: usize) -> Self::Value;

    fn output(&self, index: usize) -> Self::Output;
}

/// Whether two strings hold the same characters.
fn same_text(a: &str, b: &str) -> (r: bool)
    ensures
        r == (a@ == b@),
{
    String::from_str(a) == String::from_str(b)
}

impl NodeColoringScheme {
    /// The name of the metric, for labels.
    pub fn name(self) -> (r: &'static str)
        ensures
            r@ == match self {
                NodeColoringScheme::CumSum => "cumulative sum"@,
                NodeColoringScheme::DepCount => "dependency count"@,
                NodeColoringScheme::RevDepCount => "reverse dependency count"@,
            },
    {
        match self {
            NodeColoringScheme::CumSum => "cumulative sum",
            NodeColoringScheme::DepCount => "dependency count",
            NodeColoringScheme::RevDepCount => "reverse dependency count",
        }
    }
}

/// The scheme that is used unless another is asked for.
pub fn default_opt_scheme() -> (r: Option<NodeColoringScheme>)
    ensures
        r == Some(NodeColoringScheme::CumSum),
{
    Some(NodeColoringScheme::CumSum)
}

/// A scheme by its kebab-case name, `none` for no colouring.
pub fn parse_scheme(s: &str) -> (r: Result<Option<NodeColoringScheme>, &'static str>)
    ensures
        s@ == "none"@ ==> r == Ok::<Option<NodeColoringScheme>, &'static str>(None),
        s@ == "cum-sum"@ ==> r == Ok::<Option<NodeColoringScheme>, &'static str>(Some(NodeColoringScheme::CumSum)),
        s@ == "dep-count"@ ==> r == Ok::<Option<NodeColoringScheme>, &'static str>(Some(NodeColoringScheme::DepCount)),
        s@ == "rev-dep-count"@ ==> r == Ok::<Option<NodeColoringScheme>, &'static str>(Some(NodeColoringScheme::RevDepCount)),
        r is Err <==> (s@ != "none"@ && s@ != "cum-sum"@ && s@ != "dep-count"@ && s@ != "rev-dep-count"@),
{
    proof {
        reveal_strlit("none");
        reveal_strlit("cum-sum");
        reveal_strlit("dep-count");
        reveal_strlit("rev-dep-count");
        assert("none"@.len() == 4 && "cum-sum"@.len() == 7 && "dep-count"@.len() == 9 && "rev-dep-count"@.len() == 13);
    }
    if same_text(s, "none") {
        Ok(None)
    } else if same_text(s, "cum-sum") {
        Ok(Some(NodeColoringScheme::CumSum))
    } else if same_text(s, "dep-count") {
        Ok(Some(NodeColoringScheme::DepCount))
    } else if same_text(s, "rev-dep-count") {
        Ok(Some(NodeColoringScheme::RevDepCount))
    } else {
        Err("invalid scheme value")
    }
}

/// The highlight direction by name: `dep` (towards dependencies) is `true`,
/// `rev-dep` (towards dependents) is `false`.
pub fn parse_highlight(h: &str) -> (r: Result<bool, &'static str>)
    ensures
        h@ == "dep"@ ==> r == Ok::<bool, &'static str>(true),
        h@ == "rev-dep"@ ==> r == Ok::<bool, &'static str>(false),
        r is Err <==> (h@ != "dep"@ && h@ != "rev-dep"@),
{
    proof {
        reveal_strlit("dep");
        reveal_strlit("rev-dep");
        assert("dep"@.len() == 3 && "rev-dep"@.len() == 7);
    }
    if same_text(h, "dep") {
        Ok(true)
    } else if same_text(h, "rev-dep") {
        Ok(false)
    } else {
        Err("invalid highlight value")
    }
}

/// The highlight group of `v`: with `down`, every node from which `v` can
/// be reached (itself and its dependents, transitively); otherwise every node
/// that `v` reaches (itself and its dependencies, transitively).
pub open spec fn highlight_class(g: GraphView, down: bool, v: nat) -> Set<nat> {
    Set::new(|u: nat| if down { reaches(g.edges, u, v) } else { reaches(g.edges, v, u) })
}

/// A group is the node itself joined with the groups of its neighbours on the
/// side it looks towards.
pub proof fn lemma_class_step(g: GraphView, down: bool, v: nat, u: nat)
    ensures
        highlight_class(g, down, v).contains(u) <==> u == v || (if down {
            exists|p: nat| #[trigger] g.edges.contains((p, v)) && highlight_class(g, down, p).contains(u)
        } else {
            exists|c: nat| #[trigger] g.edges.contains((v, c)) && highlight_class(g, down, c).contains(u)
        }),
{
    if down {
        if reaches(g.edges, u, v) && u != v {
            let d = choose|d: nat| within(g.edges, u, v, d);
            let p = choose|p: nat| #[trigger] g.edges.contains((p, v)) && within(g.edges, u, p, (d - 1) as nat);
            assert(highlight_class(g, down, p).contains(u));
        }
        if u == v {
            assert(within(g.edges, u, v, 0));
        }
        if exists|p: nat| #[trigger] g.edges.contains((p, v)) && highlight_class(g, down, p).contains(u) {
            let p = choose|p: nat| #[trigger] g.edges.contains((p, v)) && highlight_class(g, down, p).contains(u);
            let d = choose|d: nat| within(g.edges, u, p, d);
            assert(within(g.edges, u, v, d + 1));
        }
    } else {
        if reaches(g.edges, v, u) && u != v {
            let d = choose|d: nat| within(g.edges, v, u, d);
            lemma_within_first(g.edges, v, u, d);
            let c = choose|c: nat| #[trigger] g.edges.contains((v, c)) && within(g.edges, c, u, (d - 1) as nat);
            assert(highlight_class(g, down, c).contains(u));
        }
        if u == v {
            assert(within(g.edges, v, u, 0));
        }
        if exists|c: nat| #[trigger] g.edges.contains((v, c)) && highlight_class(g, down, c).contains(u) {
            let c = choose|c: nat| #[trigger] g.edges.contains((v, c)) && highlight_class(g, down, c).contains(u);
            let d = choose|d: nat| within(g.edges, c, u, d);
            lemma_within_prepend(g.edges, v, c, u, d);
        }
    }
}

/// The place in topological order of the `k`-th node processed, going down
/// the order or up it.
pub open spec fn proc_pos(down: bool, n: int, k: int) -> int {
    if down {
        k
    } else {
        n - 1 - k
    }
}

/// No entry of `s` is repeated.
pub open spec fn no_repeats(s: Seq<usize>) -> bool {
    forall|a: int, b: int| 0 <= a < b < s.len() ==> s[a] != s[b]
}

fn holds_index(v: &Vec<usize>, x: usize) -> (r: bool)
    ensures
        r == v@.contains(x),
{
    let mut i: usize = 0;
    while i < v.len()
        invariant
            i <= v@.len(),
            forall|k: int| 0 <= k < i ==> v@[k] != x,
        decreases v.len() - i,
    {
        if v[i] == x {
            return true;
        }
        i = i + 1;
    }
    false
}

/// The nodes of `src` that `dst` lacks, added to it (set union).
fn union_into(dst: &mut Vec<usize>, src: &Vec<usize>)
    requires
        no_repeats(old(dst)@),
    ensures
        no_repeats(final(dst)@),
        forall|x: nat| #[trigger] index_set(final(dst)@).contains(x) <==> index_set(old(dst)@).contains(x) || index_set(src@).contains(x),
{
    let mut k: usize = 0;
    while k < src.len()
        invariant
            k <= src@.len(),
            no_repeats(dst@),
            forall|x: nat| #[trigger] index_set(dst@).contains(x) <==> index_set(old(dst)@).contains(x)
                || exists|q: int| 0 <= q < k && src@[q] as nat == x,
        decreases src.len() - k,
    {
        let x = src[k];
        let ghost before = dst@;
        if !holds_index(dst, x) {
            dst.push(x);
        }
        proof {
            assert forall|y: nat| #[trigger] index_set(dst@).contains(y) <==> index_set(old(dst)@).contains(y)
                || exists|q: int| 0 <= q < k + 1 && src@[q] as nat == y by {
                if index_set(dst@).contains(y) {
                    let i = choose|i: int| 0 <= i < dst@.len() && dst@[i] as nat == y;
                    if i < before.len() {
                        assert(index_set(before).contains(y));
                    }
                }
                if index_set(before).contains(y) {
                    let i = choose|i: int| 0 <= i < before.len() && before[i] as nat == y;
                    assert(dst@[i] as nat == y);
                }
                if exists|q: int| 0 <= q < k + 1 && src@[q] as nat == y {
                    let q = choose|q: int| 0 <= q < k + 1 && src@[q] as nat == y;
                    if q == k {
                        if before.contains(x) {
                            let i = choose|i: int| 0 <= i < before.len() && before[i] == x;
                            assert(index_set(before).contains(y));
                        } else {
                            assert(dst@[dst@.len() - 1] as nat == y);
                        }
                    } else {
                        assert(index_set(before).contains(y) || exists|q2: int| 0 <= q2 < k && src@[q2] as nat == y);
                    }
                }
            }
        }
        k = k + 1;
    }
    proof {
        assert forall|x: nat| #[trigger] index_set(dst@).contains(x) <==> index_set(old(dst)@).contains(x) || index_set(src@).contains(x) by {
            if index_set(src@).contains(x) {
                let q = choose|q: int| 0 <= q < src@.len() && src@[q] as nat == x;
            }
        }
    }
}

/// The highlight group of every node, by node index: with `is_dir_down`,
/// each node with its transitive dependents; otherwise with its transitive
/// dependencies; each listed once. Indices without a node have an empty group.
pub fn node_classes(graph: &Graph, is_dir_down: bool) -> (r: Vec<Vec<usize>>)
    requires
        graph.wf(),
    ensures
        forall|v: nat| #[trigger] graph@.nodes.contains(v) ==> v < r@.len() && index_set(r@[v as int]@)
            == highlight_class(graph@, is_dir_down, v) && no_repeats(r@[v as int]@),
        forall|v: int| 0 <= v < r@.len() && !graph@.nodes.contains(v as nat) ==> (#[trigger] r@[v])@.len() == 0,
{
    let ghost g = graph@;
    let down = is_dir_down;
    let bound = graph.node_bound();
    let mut classes: Vec<Vec<usize>> = Vec::new();
    while classes.len() < bound
        invariant
            classes@.len() <= bound,
            forall|v: int| 0 <= v < classes@.len() ==> (#[trigger] classes@[v])@.len() == 0,
        decreases bound - classes@.len(),
    {
        classes.push(Vec::new());
    }
    let order = graph.topo();
    let n = order.len();
    let mut q: usize = 0;
    let ghost mut done: Set<nat> = Set::empty();
    while q < n
        invariant
            q <= n,
            n == order@.len(),
            g == graph@,
            graph.wf(),
            down == is_dir_down,
            classes@.len() == bound,
            forall|v: nat| #[trigger] g.nodes.contains(v) ==> v < bound,
            forall|i: int, j: int| 0 <= i < j < order@.len() ==> order@[i] != order@[j],
            forall|v: nat| g.nodes.contains(v) <==> index_set(order@).contains(v),
            forall|i: int, j: int|
                0 <= i < order@.len() && 0 <= j < order@.len() && #[trigger] g.edges.contains((order@[i] as nat, order@[j] as nat)) ==> i < j,
            forall|v: nat| #[trigger] done.contains(v) <==> exists|k: int|
                0 <= k < q && order@[#[trigger] proc_pos(down, n as int, k)] as nat == v,
            forall|v: nat| #[trigger] done.contains(v) ==> g.nodes.contains(v) && index_set(classes@[v as int]@)
                == highlight_class(g, down, v) && no_repeats(classes@[v as int]@),
            forall|v: int| 0 <= v < bound && !done.contains(v as nat) ==> (#[trigger] classes@[v])@.len() == 0,
        decreases n - q,
    {
        let pos = if down { q } else { n - 1 - q };
        let node = order[pos];
        proof {
            assert(index_set(order@).contains(node as nat));
            assert(g.nodes.contains(node as nat));
        }
        let nbrs = if down { graph.parents(node) } else { graph.children(node) };
        let mut cls: Vec<usize> = Vec::new();
        cls.push(node);
        let mut j: usize = 0;
        proof {
            assert(proc_pos(down, n as int, q as int) == pos);
            assert forall|t: nat| index_set(nbrs@).contains(t) implies #[trigger] done.contains(t) by {
                assert(g.nodes.contains(t));
                let kt = choose|k: int| 0 <= k < order@.len() && order@[k] as nat == t;
                if down {
                    assert(g.edges.contains((order@[kt] as nat, order@[pos as int] as nat)));
                    assert(proc_pos(down, n as int, kt) == kt);
                } else {
                    assert(g.edges.contains((order@[pos as int] as nat, order@[kt] as nat)));
                    assert(proc_pos(down, n as int, n - 1 - kt) == kt);
                }
            }
            assert forall|u: nat| #[trigger] index_set(cls@).contains(u) <==> u == node || exists|k: int|
                0 <= k < j && highlight_class(g, down, nbrs@[k] as nat).contains(u) by {
                if u == node {
                    assert(cls@[0] as nat == u);
                }
            }
        }
        while j < nbrs.len()
            invariant
                j <= nbrs@.len(),
                g == graph@,
                graph.wf(),
                down == is_dir_down,
                classes@.len() == bound,
                forall|v: nat| #[trigger] g.nodes.contains(v) ==> v < bound,
                forall|v: nat| #[trigger] done.contains(v) ==> g.nodes.contains(v) && index_set(classes@[v as int]@)
                    == highlight_class(g, down, v) && no_repeats(classes@[v as int]@),
                forall|t: nat| index_set(nbrs@).contains(t) ==> #[trigger] done.contains(t),
                forall|u: nat| #[trigger] index_set(cls@).contains(u) <==> u == node || exists|k: int|
                    0 <= k < j && highlight_class(g, down, nbrs@[k] as nat).contains(u),
                no_repeats(cls@),
            decreases nbrs.len() - j,
        {
            let nb = nbrs[j];
            proof {
                assert(index_set(nbrs@).contains(nb as nat));
                assert(done.contains(nb as nat));
                assert(g.nodes.contains(nb as nat));
            }
            let ghost before = cls@;
            union_into(&mut cls, &classes[nb]);
            proof {
                assert forall|u: nat| #[trigger] index_set(cls@).contains(u) <==> u == node || exists|k: int|
                    0 <= k < j + 1 && highlight_class(g, down, nbrs@[k] as nat).contains(u) by {
                    assert(index_set(classes@[nb as int]@) == highlight_class(g, down, nb as nat));
                    if exists|k: int| 0 <= k < j + 1 && highlight_class(g, down, nbrs@[k] as nat).contains(u) {
                        let k = choose|k: int| 0 <= k < j + 1 && highlight_class(g, down, nbrs@[k] as nat).contains(u);
                        if k < j {
                            assert(index_set(before).contains(u));
                        }
                    }
                    if index_set(before).contains(u) && u != node {
                        let k = choose|k: int| 0 <= k < j && highlight_class(g, down, nbrs@[k] as nat).contains(u);
                    }
                }
            }
            j = j + 1;
        }
        proof {
            assert forall|u: nat| #[trigger] index_set(cls@).contains(u) <==> highlight_class(g, down, node as nat).contains(u) by {
                lemma_class_step(g, down, node as nat, u);
                if down {
                    if exists|p: nat| #[trigger] g.edges.contains((p, node as nat)) && highlight_class(g, down, p).contains(u) {
                        let p = choose|p: nat| #[trigger] g.edges.contains((p, node as nat)) && highlight_class(g, down, p).contains(u);
                        assert(g.parents(node as nat).contains(p));
                        assert(index_set(nbrs@).contains(p));
                        let k = choose|k: int| 0 <= k < nbrs@.len() && nbrs@[k] as nat == p;
                    }
                    if exists|k: int| 0 <= k < nbrs@.len() && highlight_class(g, down, nbrs@[k] as nat).contains(u) {
                        let k = choose|k: int| 0 <= k < nbrs@.len() && highlight_class(g, down, nbrs@[k] as nat).contains(u);
                        assert(index_set(nbrs@).contains(nbrs@[k] as nat));
                        assert(g.edges.contains((nbrs@[k] as nat, node as nat)));
                    }
                } else {
                    if exists|c: nat| #[trigger] g.edges.contains((node as nat, c)) && highlight_class(g, down, c).contains(u) {
                        let c = choose|c: nat| #[trigger] g.edges.contains((node as nat, c)) && highlight_class(g, down, c).contains(u);
                        assert(g.children(node as nat).contains(c));
                        assert(index_set(nbrs@).contains(c));
                        let k = choose|k: int| 0 <= k < nbrs@.len() && nbrs@[k] as nat == c;
                    }
                    if exists|k: int| 0 <= k < nbrs@.len() && highlight_class(g, down, nbrs@[k] as nat).contains(u) {
                        let k = choose|k: int| 0 <= k < nbrs@.len() && highlight_class(g, down, nbrs@[k] as nat).contains(u);
                        assert(index_set(nbrs@).contains(nbrs@[k] as nat));
                        assert(g.edges.contains((node as nat, nbrs@[k] as nat)));
                    }
                }
            }
            assert(index_set(cls@) =~= highlight_class(g, down, node as nat));
        }
        let ghost classes_before = classes@;
        classes.set(node, cls);
        proof {
            assert(!done.contains(node as nat)) by {
                if done.contains(node as nat) {
                    let k = choose|k: int| 0 <= k < q && order@[#[trigger] proc_pos(down, n as int, k)] as nat == node as nat;
                    let kk = if down { k } else { n - 1 - k };
                    assert(order@[kk] == order@[pos as int]);
                }
            }
            let done1 = done.insert(node as nat);
            assert forall|v: nat| #[trigger] done1.contains(v) <==> exists|k: int|
                0 <= k < q + 1 && order@[#[trigger] proc_pos(down, n as int, k)] as nat == v by {
                if v == node as nat {
                    assert(proc_pos(down, n as int, q as int) == pos);
                    assert(order@[proc_pos(down, n as int, q as int)] as nat == v);
                }
                if exists|k: int| 0 <= k < q + 1 && order@[#[trigger] proc_pos(down, n as int, k)] as nat == v {
                    let k = choose|k: int| 0 <= k < q + 1 && order@[#[trigger] proc_pos(down, n as int, k)] as nat == v;
                    if k < q {
                        assert(done.contains(v));
                    }
                }
            }
            assert forall|v: int| 0 <= v < bound && !done1.contains(v as nat) implies (#[trigger] classes@[v])@.len() == 0 by {
                assert(classes@[v] == classes_before[v]);
            }
            assert forall|v: nat| #[trigger] done1.contains(v) implies g.nodes.contains(v) && index_set(classes@[v as int]@)
                == highlight_class(g, down, v) && no_repeats(classes@[v as int]@) by {
                if v != node as nat {
                    assert(classes@[v as int] == classes_before[v as int]);
                }
            }
            done = done1;
        }
        q = q + 1;
    }
    proof {
        assert forall|v: nat| #[trigger] g.nodes.contains(v) implies done.contains(v) by {
            let k = choose|k: int| 0 <= k < order@.len() && order@[k] as nat == v;
            let kq = if down { k } else { n - 1 - k };
            assert(order@[proc_pos(down, n as int, kq)] as nat == v);
        }
    }
    classes
}

} // verus!
