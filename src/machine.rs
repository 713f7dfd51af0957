//! What reading a `cargo tree` listing means: a stack machine over its lines,
//! stated on mathematical values. The parser in `cargo` is proved to follow it
//! step by step.

use crate::cargo::TreeError;
use crate::graph::{FeatureMap, GraphView};
use crate::tree::{lex_less, line_depth, line_feature, line_lib, line_ok, line_repeats, short_of};
use vstd::prelude::*;

verus! {

/// A feature map: feature names with the names each enables.
pub type FMap = Seq<(Seq<char>, Seq<Seq<char>>)>;

/// The characters of a feature map.
pub open spec fn fm_view(m: FeatureMap) -> FMap {
    m@.map_values(|e: (String, Vec<String>)| (e.0@, e.1@.map_values(|s: String| s@)))
}

/// The first position at or after `i` of key `k` in `m`.
pub open spec fn fm_find(m: FMap, k: Seq<char>, i: nat) -> Option<nat>
    decreases m.len() - i,
{
    if i >= m.len() {
        None
    } else if m[i as int].0 == k {
        Some(i)
    } else {
        fm_find(m, k, i + 1)
    }
}

/// Where a new key `k` goes in `m`, from position `i` on: before the first
/// key that it precedes.
pub open spec fn fm_slot(m: FMap, k: Seq<char>, i: nat) -> nat
    decreases m.len() - i,
{
    if i >= m.len() {
        m.len()
    } else if lex_less(k, m[i as int].0) {
        i
    } else {
        fm_slot(m, k, i + 1)
    }
}

/// `m` with feature `k` enabling nothing (added in order if new).
pub open spec fn fm_reset(m: FMap, k: Seq<char>) -> FMap {
    match fm_find(m, k, 0) {
        Some(i) => m.update(i as int, (k, Seq::empty())),
        None => m.insert(fm_slot(m, k, 0) as int, (k, Seq::empty())),
    }
}

/// `m` with `v` added to what feature `k` enables (`k` added in order if
/// new).
pub open spec fn fm_push(m: FMap, k: Seq<char>, v: Seq<char>) -> FMap {
    match fm_find(m, k, 0) {
        Some(i) => m.update(i as int, (m[i as int].0, m[i as int].1.push(v))),
        None => m.insert(fm_slot(m, k, 0) as int, (k, seq![v])),
    }
}

/// Keys in strictly increasing order, so each once.
pub open spec fn fm_ordered(m: FMap) -> bool {
    forall|i: int| 0 <= i < m.len() - 1 ==> lex_less(#[trigger] m[i].0, m[i + 1].0)
}

/// The state of the machine between lines.
#[verifier::ext_equal]
pub struct PState {
    /// The entry text of each crate; a crate's node is its position.
    pub keys: Seq<Seq<char>>,
    /// The features of each crate.
    pub node_feats: Seq<FMap>,
    /// The dependency relations, in order of creation, with their features.
    pub edges: Seq<(nat, nat, FMap)>,
    /// Where each (short name, feature) pair was expanded in full.
    pub feat_nodes: Seq<(Seq<char>, Seq<char>, nat)>,
    /// The crates above the current line, each with the feature through
    /// which it was entered.
    pub stack: Seq<(nat, Option<Seq<char>>)>,
    pub last_node: nat,
    pub last_feat: Option<Seq<char>>,
    /// The previous line named a feature whose crate comes next.
    pub is_feat_first: bool,
}

pub open spec fn init_state() -> PState {
    PState {
        keys: Seq::empty(),
        node_feats: Seq::empty(),
        edges: Seq::empty(),
        feat_nodes: Seq::empty(),
        stack: Seq::empty(),
        last_node: 0,
        last_feat: None,
        is_feat_first: false,
    }
}

pub open spec fn key_index(keys: Seq<Seq<char>>, lib: Seq<char>, i: nat) -> Option<nat>
    decreases keys.len() - i,
{
    if i >= keys.len() {
        None
    } else if keys[i as int] == lib {
        Some(i)
    } else {
        key_index(keys, lib, i + 1)
    }
}

pub open spec fn feat_index(t: Seq<(Seq<char>, Seq<char>, nat)>, short: Seq<char>, f: Seq<char>, i: nat) -> Option<nat>
    decreases t.len() - i,
{
    if i >= t.len() {
        None
    } else if t[i as int].0 == short && t[i as int].1 == f {
        Some(i)
    } else {
        feat_index(t, short, f, i + 1)
    }
}

pub open spec fn edge_index(es: Seq<(nat, nat, FMap)>, a: nat, b: nat, i: nat) -> Option<nat>
    decreases es.len() - i,
{
    if i >= es.len() {
        None
    } else if es[i as int].0 == a && es[i as int].1 == b {
        Some(i)
    } else {
        edge_index(es, a, b, i + 1)
    }
}

/// Records that the feature `f` of `short` expands at node `n`.
pub open spec fn set_feat_node(t: Seq<(Seq<char>, Seq<char>, nat)>, short: Seq<char>, f: Seq<char>, n: nat) -> Seq<(Seq<char>, Seq<char>, nat)> {
    match feat_index(t, short, f, 0) {
        Some(i) => t.update(i as int, (short, f, n)),
        None => t.push((short, f, n)),
    }
}

/// Attaches `node` under the top of the stack: an edge from the top's node
/// (where that is another node), created if new; where the top was entered
/// through a feature, that feature now enables `feat` on the edge. `None`
/// where the listing does not allow this.
pub open spec fn attach(s: PState, node: nat, feat: Option<Seq<char>>) -> Option<PState> {
    if s.stack.len() == 0 {
        Some(s)
    } else {
        let top = s.stack.last();
        let back = top.0;
        if back == node {
            Some(s)
        } else if back >= s.keys.len() || node >= s.keys.len() {
            None
        } else {
            let es = match edge_index(s.edges, back, node, 0) {
                Some(k) => s.edges,
                None => s.edges.push((back, node, Seq::empty())),
            };
            let k = match edge_index(s.edges, back, node, 0) {
                Some(k) => k,
                None => s.edges.len(),
            };
            match top.1 {
                None => Some(PState { edges: es, ..s }),
                Some(bf) => match feat {
                    None => None,
                    Some(f) => Some(PState { edges: es.update(k as int, (back, node, fm_push(es[k as int].2, bf, f))), ..s }),
                },
            }
        }
    }
}

/// The node of the crate entry `lib`, added if new.
pub open spec fn node_for(s: PState, lib: Seq<char>) -> (PState, nat) {
    match key_index(s.keys, lib, 0) {
        Some(w) => (s, w),
        None => (PState { keys: s.keys.push(lib), node_feats: s.node_feats.push(Seq::empty()), ..s }, s.keys.len()),
    }
}

/// A crate line right after the feature line naming it: the feature is
/// expanded at node `n`; where `n` was entered through another of its
/// features, that one now enables this one too.
pub open spec fn expand(s: PState, n: nat, short: Seq<char>) -> Option<PState> {
    match s.last_feat {
        None => None,
        Some(f) => {
            let nf = s.node_feats.update(n as int, fm_reset(s.node_feats[n as int], f));
            let s2 = PState { feat_nodes: set_feat_node(s.feat_nodes, short, f, n), node_feats: nf, ..s };
            if s.stack.len() > 0 && s.stack.last().0 == n {
                match s.stack.last().1 {
                    Some(bf) => if fm_find(nf[n as int], bf, 0) is Some {
                        Some(PState { node_feats: nf.update(n as int, fm_push(nf[n as int], bf, f)), ..s2 })
                    } else {
                        None
                    },
                    None => Some(s2),
                }
            } else {
                Some(s2)
            }
        },
    }
}

/// The stack for a line at depth `d`: cut back to `d` entries, or grown by
/// the last crate when the line goes one level deeper.
pub open spec fn adjust(s: PState, d: nat) -> PState {
    if d < s.stack.len() {
        PState { stack: s.stack.subrange(0, d as int), ..s }
    } else if d >= 1 && d - 1 == s.stack.len() && !s.is_feat_first {
        PState { stack: s.stack.push((s.last_node, s.last_feat)), ..s }
    } else {
        s
    }
}

/// One well-formed line, or `None` where the listing does not allow it.
pub open spec fn step(s: PState, l: Seq<char>) -> Option<PState> {
    let lib = line_lib(l);
    let s1 = adjust(s, line_depth(l));
    match line_feature(l) {
        Some(f) => {
            let s2 = PState { last_feat: Some(f), ..s1 };
            if line_repeats(l) {
                match feat_index(s2.feat_nodes, short_of(lib), f, 0) {
                    None => None,
                    Some(i) => attach(s2, s2.feat_nodes[i as int].2, s2.last_feat),
                }
            } else {
                Some(PState { is_feat_first: true, ..s2 })
            }
        },
        None => {
            let s3 = node_for(s1, lib).0;
            let n = node_for(s1, lib).1;
            let s4 = if s3.is_feat_first {
                expand(s3, n, short_of(lib))
            } else {
                Some(PState { last_feat: None, ..s3 })
            };
            match s4 {
                None => None,
                Some(s4) => match attach(s4, n, s4.last_feat) {
                    None => None,
                    Some(s5) => if s5.is_feat_first {
                        Some(PState { stack: s5.stack.push((n, s5.last_feat)), last_node: n, last_feat: None, is_feat_first: false, ..s5 })
                    } else {
                        Some(PState { last_node: n, is_feat_first: false, ..s5 })
                    },
                },
            }
        },
    }
}

/// The machine after the first `n` lines, or the error of the first line
/// that stops it: an empty line, a malformed line, or one that the state does
/// not allow (an unmatched feature back-reference).
pub open spec fn run(ls: Seq<Seq<char>>, n: nat) -> Result<PState, TreeError>
    decreases n,
{
    if n == 0 || n > ls.len() {
        Ok(init_state())
    } else {
        match run(ls, (n - 1) as nat) {
            Err(e) => Err(e),
            Ok(s) => {
                let l = ls[n - 1];
                if l.len() == 0 {
                    Err(TreeError::NoSingleRoot)
                } else if !line_ok(l) {
                    Err(TreeError::Malformed((n - 1) as usize))
                } else {
                    match step(s, l) {
                        None => Err(TreeError::Malformed((n - 1) as usize)),
                        Some(s2) => Ok(s2),
                    }
                }
            },
        }
    }
}

/// The graph a final state describes: node `i` for its `i`-th crate, its
/// edges, rooted at the first crate.
pub open spec fn state_view(s: PState) -> GraphView {
    GraphView {
        nodes: Set::new(|v: nat| v < s.keys.len()),
        edges: Set::new(|p: (nat, nat)| exists|k: int| 0 <= k < s.edges.len() && #[trigger] s.edges[k].0 == p.0 && s.edges[k].1 == p.1),
        root: 0,
        std: None,
    }
}

/// What a listing with lines `ls` reads as: the final state of the machine,
/// or why there is no graph (no lines or no crate, the first line that stops
/// the machine, or a cycle).
pub open spec fn parse_spec(ls: Seq<Seq<char>>) -> Result<PState, TreeError> {
    if ls.len() == 0 {
        Err(TreeError::NoSingleRoot)
    } else {
        match run(ls, ls.len()) {
            Err(e) => Err(e),
            Ok(s) => if s.keys.len() == 0 {
                Err(TreeError::NoSingleRoot)
            } else if !state_view(s).acyclic() {
                Err(TreeError::Cyclic)
            } else {
                Ok(s)
            },
        }
    }
}

/// The state's edges join distinct crates, each pair once, and its stored
/// nodes are crates.
pub open spec fn state_ok(s: PState) -> bool {
    &&& s.node_feats.len() == s.keys.len()
    &&& forall|k: int| 0 <= k < s.edges.len() ==> #[trigger] s.edges[k].0 < s.keys.len() && s.edges[k].1 < s.keys.len()
        && s.edges[k].0 != s.edges[k].1
    &&& forall|k: int, j: int| 0 <= k < s.edges.len() && 0 <= j < s.edges.len() && #[trigger] s.edges[k].0 == #[trigger] s.edges[j].0
        && s.edges[k].1 == s.edges[j].1 ==> k == j
}

pub proof fn lemma_lex_total(a: Seq<char>, b: Seq<char>)
    requires
        a != b,
    ensures
        lex_less(a, b) || lex_less(b, a),
    decreases a.len(),
{
    if a.len() == 0 && b.len() == 0 {
        assert(a =~= b);
    }
    if a.len() > 0 && b.len() > 0 && a[0] != b[0] {
        vstd::utf8::char_u32_cast(a[0], a[0] as u32);
        vstd::utf8::char_u32_cast(b[0], b[0] as u32);
        assert((a[0] as u32) != (b[0] as u32));
    }
    if a.len() > 0 && b.len() > 0 && a[0] == b[0] {
        if a.drop_first() == b.drop_first() {
            assert(a =~= seq![a[0]] + a.drop_first());
            assert(b =~= seq![b[0]] + b.drop_first());
        }
        lemma_lex_total(a.drop_first(), b.drop_first());
    }
}

proof fn lemma_fm_find_props(m: FMap, k: Seq<char>, i: nat)
    ensures
        match fm_find(m, k, i) {
            Some(j) => i <= j < m.len() && m[j as int].0 == k,
            None => forall|j: int| i <= j < m.len() ==> m[j].0 != k,
        },
    decreases m.len() - i,
{
    if i < m.len() {
        lemma_fm_find_props(m, k, i + 1);
    }
}

proof fn lemma_fm_slot_props(m: FMap, k: Seq<char>, i: nat)
    ensures
        fm_slot(m, k, i) <= m.len(),
        i <= m.len() ==> i <= fm_slot(m, k, i),
        forall|j: int| i <= j < fm_slot(m, k, i) ==> !lex_less(k, #[trigger] m[j].0),
        fm_slot(m, k, i) < m.len() ==> lex_less(k, m[fm_slot(m, k, i) as int].0),
    decreases m.len() - i,
{
    if i < m.len() {
        lemma_fm_slot_props(m, k, i + 1);
    }
}

/// Adding a new key where `fm_slot` puts it keeps the keys in order.
proof fn lemma_fm_insert_ordered(m: FMap, k: Seq<char>, x: Seq<Seq<char>>)
    requires
        fm_ordered(m),
        fm_find(m, k, 0) is None,
    ensures
        fm_ordered(m.insert(fm_slot(m, k, 0) as int, (k, x))),
{
    let p = fm_slot(m, k, 0) as int;
    lemma_fm_slot_props(m, k, 0);
    lemma_fm_find_props(m, k, 0);
    let t = m.insert(p, (k, x));
    assert forall|i: int| 0 <= i < t.len() - 1 implies lex_less(#[trigger] t[i].0, t[i + 1].0) by {
        if i + 1 < p {
            assert(lex_less(m[i].0, m[i + 1].0));
        } else if i + 1 == p {
            assert(!lex_less(k, m[i].0));
            assert(m[i].0 != k);
            lemma_lex_total(m[i].0, k);
        } else if i == p {
        } else {
            assert(lex_less(m[i - 1].0, m[i].0));
        }
    }
}

/// `fm_push` keeps the keys of a feature map in order.
pub proof fn lemma_fm_push_ordered(m: FMap, k: Seq<char>, v: Seq<char>)
    requires
        fm_ordered(m),
    ensures
        fm_ordered(fm_push(m, k, v)),
{
    lemma_fm_find_props(m, k, 0);
    match fm_find(m, k, 0) {
        Some(i) => {
            let t = fm_push(m, k, v);
            assert forall|j: int| 0 <= j < t.len() - 1 implies lex_less(#[trigger] t[j].0, t[j + 1].0) by {
                assert(t[j].0 == m[j].0 && t[j + 1].0 == m[j + 1].0);
            }
        },
        None => lemma_fm_insert_ordered(m, k, seq![v]),
    }
}

/// `fm_reset` keeps the keys of a feature map in order.
pub proof fn lemma_fm_reset_ordered(m: FMap, k: Seq<char>)
    requires
        fm_ordered(m),
    ensures
        fm_ordered(fm_reset(m, k)),
{
    lemma_fm_find_props(m, k, 0);
    match fm_find(m, k, 0) {
        Some(i) => {
            let t = fm_reset(m, k);
            assert forall|j: int| 0 <= j < t.len() - 1 implies lex_less(#[trigger] t[j].0, t[j + 1].0) by {
                assert(t[j].0 == m[j].0 && t[j + 1].0 == m[j + 1].0);
            }
        },
        None => lemma_fm_insert_ordered(m, k, Seq::empty()),
    }
}

/// Every feature map of a state, of crates and of relations, keeps its keys
/// in increasing order.
pub open spec fn feats_ordered(s: PState) -> bool {
    &&& forall|w: int| 0 <= w < s.node_feats.len() ==> fm_ordered(#[trigger] s.node_feats[w])
    &&& forall|k: int| 0 <= k < s.edges.len() ==> fm_ordered(#[trigger] s.edges[k].2)
}

proof fn lemma_attach_ordered(s: PState, node: nat, feat: Option<Seq<char>>)
    requires
        feats_ordered(s),
        attach(s, node, feat) is Some,
    ensures
        feats_ordered(attach(s, node, feat)->0),
{
    if s.stack.len() > 0 && s.stack.last().0 != node && !(s.stack.last().0 >= s.keys.len() || node >= s.keys.len()) {
        let back = s.stack.last().0;
        let es = match edge_index(s.edges, back, node, 0) {
            Some(k) => s.edges,
            None => s.edges.push((back, node, Seq::empty())),
        };
        let k = match edge_index(s.edges, back, node, 0) {
            Some(k) => k,
            None => s.edges.len(),
        };
        assert forall|j: int| 0 <= j < es.len() implies fm_ordered(#[trigger] es[j].2) by {
            if j < s.edges.len() {
                assert(fm_ordered(s.edges[j].2));
            }
        }
        match s.stack.last().1 {
            Some(bf) => match feat {
                Some(f) => {
                    lemma_edge_index_bound(s.edges, back, node, 0);
                    lemma_fm_push_ordered(es[k as int].2, bf, f);
                },
                None => {},
            },
            None => {},
        }
    }
}

proof fn lemma_edge_index_bound(es: Seq<(nat, nat, FMap)>, a: nat, b: nat, i: nat)
    ensures
        match edge_index(es, a, b, i) {
            Some(k) => k < es.len(),
            None => true,
        },
    decreases es.len() - i,
{
    if i < es.len() {
        lemma_edge_index_bound(es, a, b, i + 1);
    }
}

proof fn lemma_key_index_bound(keys: Seq<Seq<char>>, lib: Seq<char>, i: nat)
    ensures
        match key_index(keys, lib, i) {
            Some(w) => w < keys.len(),
            None => true,
        },
    decreases keys.len() - i,
{
    if i < keys.len() {
        lemma_key_index_bound(keys, lib, i + 1);
    }
}

proof fn lemma_step_ordered(s: PState, l: Seq<char>)
    requires
        feats_ordered(s),
        s.node_feats.len() == s.keys.len(),
        step(s, l) is Some,
    ensures
        feats_ordered(step(s, l)->0),
        step(s, l)->0.node_feats.len() == step(s, l)->0.keys.len(),
{
    let lib = line_lib(l);
    let s1 = adjust(s, line_depth(l));
    assert(feats_ordered(s1));
    match line_feature(l) {
        Some(f) => {
            let s2 = PState { last_feat: Some(f), ..s1 };
            if line_repeats(l) {
                let i = feat_index(s2.feat_nodes, short_of(lib), f, 0)->0;
                lemma_attach_ordered(s2, s2.feat_nodes[i as int].2, s2.last_feat);
            }
        },
        None => {
            let s3 = node_for(s1, lib).0;
            let n = node_for(s1, lib).1;
            assert(feats_ordered(s3)) by {
                assert forall|w: int| 0 <= w < s3.node_feats.len() implies fm_ordered(#[trigger] s3.node_feats[w]) by {
                    if w < s1.node_feats.len() {
                        assert(fm_ordered(s1.node_feats[w]));
                    }
                }
            }
            lemma_key_index_bound(s1.keys, lib, 0);
            assert(n < s3.node_feats.len());
            let s4 = if s3.is_feat_first { expand(s3, n, short_of(lib)) } else { Some(PState { last_feat: None, ..s3 }) };
            if s3.is_feat_first {
                let f = s3.last_feat->0;
                let nf = s3.node_feats.update(n as int, fm_reset(s3.node_feats[n as int], f));
                lemma_fm_reset_ordered(s3.node_feats[n as int], f);
                assert forall|w: int| 0 <= w < nf.len() implies fm_ordered(#[trigger] nf[w]) by {
                    if w != n {
                        assert(fm_ordered(s3.node_feats[w]));
                    }
                }
                if s3.stack.len() > 0 && s3.stack.last().0 == n && s3.stack.last().1 is Some {
                    let nf2 = nf.update(n as int, fm_push(nf[n as int], s3.stack.last().1->0, f));
                    lemma_fm_push_ordered(nf[n as int], s3.stack.last().1->0, f);
                    assert forall|w: int| 0 <= w < nf2.len() implies fm_ordered(#[trigger] nf2[w]) by {
                        if w != n {
                            assert(fm_ordered(nf[w]));
                        }
                    }
                }
            }
            let s4v = s4->0;
            assert(feats_ordered(s4v));
            lemma_attach_ordered(s4v, n, s4v.last_feat);
        },
    }
}

proof fn lemma_run_ordered(ls: Seq<Seq<char>>, n: nat)
    requires
        run(ls, n) is Ok,
    ensures
        feats_ordered(run(ls, n)->Ok_0),
        run(ls, n)->Ok_0.node_feats.len() == run(ls, n)->Ok_0.keys.len(),
    decreases n,
{
    if n > 0 && n <= ls.len() {
        lemma_run_ordered(ls, (n - 1) as nat);
        let s = run(ls, (n - 1) as nat)->Ok_0;
        lemma_step_ordered(s, ls[n - 1]);
    }
}

/// The feature maps of a parsed listing, of crates and of relations, have
/// their keys (feature names) in strictly increasing order, so each once.
pub proof fn lemma_parse_ordered(ls: Seq<Seq<char>>)
    requires
        parse_spec(ls) is Ok,
    ensures
        feats_ordered(parse_spec(ls)->Ok_0),
{
    lemma_run_ordered(ls, ls.len());
}

} // verus!
