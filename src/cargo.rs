//! Building the dependency graph from a `cargo tree` listing: a stack machine
//! over its lines.

use crate::graph::{EdgeWeight, FeatureMap, Graph, NodeWeight};
use crate::machine::{
    adjust, attach, edge_index, expand, feat_index, fm_find, fm_push, fm_reset, fm_slot, fm_view,
init_state, key_index, node_for, parse_spec, run, set_feat_node, state_ok,
    state_view, step, FMap, PState,
};
use crate::pgraph::{pg_add_edge, pg_add_node, pg_edge_set, pg_edges, pg_has_edge, pg_new, pg_node_slots, pg_nodes, Pg};
use crate::tree::{
    chars_eq, chars_less, chars_of, extra_of, find_from, is_crate_line, line_depth, line_feature, line_lib, line_ok,
    line_repeats, lines_of, read_line, short_of, slice_of, split_entry, split_lines, string_of, underscore_of, underscored,
    LineInfo,
};
use vstd::prelude::*;

verus! {

/// Why a listing gives no graph.
#[derive(Debug, PartialEq, Eq)]
pub enum TreeError {
    /// The listing has no lines, an empty line, or no crate: it does not
    /// have one single root package.
    NoSingleRoot,
    /// The line at this index (from zero) is malformed, or refers back to a
    /// feature that was never expanded.
    Malformed(usize),
    /// The dependency relations form a cycle.
    Cyclic,
}

/// The position of key `k` in the feature map `m`, if it is there.
fn fm_find_at(m: &FeatureMap, k: &String) -> (r: Option<usize>)
    ensures
        match r {
            Some(i) => fm_find(fm_view(*m), k@, 0) == Some(i as nat),
            None => fm_find(fm_view(*m), k@, 0) is None,
        },
{
    let ghost v = fm_view(*m);
    let mut i: usize = 0;
    while i < m.len()
        invariant
            i <= m@.len(),
            v == fm_view(*m),
            fm_find(v, k@, 0) == fm_find(v, k@, i as nat),
        decreases m.len() - i,
    {
        if m[i].0 == *k {
            return Some(i);
        }
        i = i + 1;
    }
    None
}

proof fn lemma_fm_find(m: FMap, k: Seq<char>, i: nat)
    ensures
        match fm_find(m, k, i) {
            Some(j) => i <= j < m.len() && m[j as int].0 == k,
            None => forall|j: int| i <= j < m.len() ==> m[j].0 != k,
        },
    decreases m.len() - i,
{
    if i < m.len() {
        lemma_fm_find(m, k, i + 1);
    }
}

proof fn lemma_fm_slot(m: FMap, k: Seq<char>, i: nat)
    ensures
        fm_slot(m, k, i) <= m.len(),
    decreases m.len() - i,
{
    if i < m.len() {
        lemma_fm_slot(m, k, i + 1);
    }
}

/// Where a new key `k` goes in `m` to keep the keys in increasing order.
fn fm_slot_at(m: &FeatureMap, k: &String) -> (r: usize)
    ensures
        r == fm_slot(fm_view(*m), k@, 0),
        r <= m@.len(),
{
    let ghost v = fm_view(*m);
    let kc = chars_of(k.as_str());
    let mut i: usize = 0;
    while i < m.len()
        invariant
            i <= m@.len(),
            v == fm_view(*m),
            kc@ == k@,
            fm_slot(v, k@, 0) == fm_slot(v, k@, i as nat),
        decreases m.len() - i,
    {
        let mc = chars_of(m[i].0.as_str());
        if chars_less(&kc, &mc) {
            return i;
        }
        i = i + 1;
    }
    i
}

/// Sets feature `k` of `m` to enable nothing, adding it in order if it is new.
fn fm_reset_in(m: &mut FeatureMap, k: String)
    ensures
        fm_view(*final(m)) == fm_reset(fm_view(*old(m)), k@),
{
    let ghost v = fm_view(*m);
    let ghost kv = k@;
    proof {
        lemma_fm_find(v, kv, 0);
    }
    match fm_find_at(m, &k) {
        Some(i) => {
            m.remove(i);
            let empty: Vec<String> = Vec::new();
            proof {
                assert(empty@.map_values(|s: String| s@) =~= Seq::<Seq<char>>::empty());
            }
            m.insert(i, (k, empty));
            proof {
                assert(fm_view(*m) =~= v.update(i as int, (kv, Seq::empty())));
            }
        },
        None => {
            let at = fm_slot_at(m, &k);
            let empty: Vec<String> = Vec::new();
            proof {
                assert(empty@.map_values(|s: String| s@) =~= Seq::<Seq<char>>::empty());
            }
            m.insert(at, (k, empty));
            proof {
                assert(fm_view(*m) =~= v.insert(at as int, (kv, Seq::empty())));
            }
        },
    }
}

/// Adds `v` to the features that feature `k` of `m` enables; `k` is added in
/// order if it is new. Returns whether `k` was there before.
fn fm_push_in(m: &mut FeatureMap, k: String, v: String) -> (r: bool)
    ensures
        fm_view(*final(m)) == fm_push(fm_view(*old(m)), k@, v@),
        r == fm_find(fm_view(*old(m)), k@, 0) is Some,
{
    let ghost mv = fm_view(*m);
    let ghost kv = k@;
    let ghost vv = v@;
    proof {
        lemma_fm_find(mv, kv, 0);
    }
    match fm_find_at(m, &k) {
        Some(i) => {
            let (key, mut list) = m.remove(i);
            let ghost lv = list@;
            list.push(v);
            proof {
                assert(list@.map_values(|s: String| s@) =~= lv.map_values(|s: String| s@).push(vv));
            }
            m.insert(i, (key, list));
            proof {
                assert(fm_view(*m) =~= mv.update(i as int, (mv[i as int].0, mv[i as int].1.push(vv))));
            }
            true
        },
        None => {
            let mut list = Vec::new();
            list.push(v);
            proof {
                assert(list@.map_values(|s: String| s@) =~= seq![vv]);
            }
            let at = fm_slot_at(m, &k);
            m.insert(at, (k, list));
            proof {
                assert(fm_view(*m) =~= mv.insert(at as int, (kv, seq![vv])));
            }
            false
        },
    }
}

/// A copy of the characters `v`.
fn copy_chars(v: &Vec<char>) -> (r: Vec<char>)
    ensures
        r@ == v@,
{
    slice_of(v, 0, v.len())
}

pub open spec fn opt_view(o: Option<Vec<char>>) -> Option<Seq<char>> {
    match o {
        Some(v) => Some(v@),
        None => None,
    }
}

fn copy_opt(o: &Option<Vec<char>>) -> (r: Option<Vec<char>>)
    ensures
        opt_view(r) == opt_view(*o),
{
    match o {
        Some(v) => Some(copy_chars(v)),
        None => None,
    }
}

/// The characters of `v` as a string.
fn text_of(v: &Vec<char>) -> (r: String)
    ensures
        r@ == v@,
{
    string_of(v)
}

/// The state of the stack machine while it reads a listing (see
/// `machine::PState`).
struct Builder {
    keys: Vec<Vec<char>>,
    node_feats: Vec<FeatureMap>,
    edges: Vec<(usize, usize, FeatureMap)>,
    feat_nodes: Vec<(Vec<char>, Vec<char>, usize)>,
    stack: Vec<(usize, Option<Vec<char>>)>,
    last_node: usize,
    last_feat: Option<Vec<char>>,
    is_feat_first: bool,
}

pub open spec fn keys_view(keys: Seq<Vec<char>>) -> Seq<Seq<char>> {
    keys.map_values(|v: Vec<char>| v@)
}

spec fn feats_view(fs: Seq<FeatureMap>) -> Seq<FMap> {
    fs.map_values(|m: FeatureMap| fm_view(m))
}

spec fn edges_view(es: Seq<(usize, usize, FeatureMap)>) -> Seq<(nat, nat, FMap)> {
    es.map_values(|e: (usize, usize, FeatureMap)| (e.0 as nat, e.1 as nat, fm_view(e.2)))
}

spec fn table_view(t: Seq<(Vec<char>, Vec<char>, usize)>) -> Seq<(Seq<char>, Seq<char>, nat)> {
    t.map_values(|e: (Vec<char>, Vec<char>, usize)| (e.0@, e.1@, e.2 as nat))
}

spec fn stack_view(st: Seq<(usize, Option<Vec<char>>)>) -> Seq<(nat, Option<Seq<char>>)> {
    st.map_values(|e: (usize, Option<Vec<char>>)| (e.0 as nat, opt_view(e.1)))
}

/// The position of the crate entry `lib` among `keys`, if it is there.
fn key_pos(keys: &Vec<Vec<char>>, lib: &Vec<char>) -> (r: Option<usize>)
    ensures
        match r {
            Some(w) => key_index(keys_view(keys@), lib@, 0) == Some(w as nat),
            None => key_index(keys_view(keys@), lib@, 0) is None,
        },
{
    let ghost kv = keys_view(keys@);
    let mut i: usize = 0;
    while i < keys.len()
        invariant
            i <= keys@.len(),
            kv == keys_view(keys@),
            key_index(kv, lib@, 0) == key_index(kv, lib@, i as nat),
        decreases keys.len() - i,
    {
        if chars_eq(&keys[i], lib) {
            return Some(i);
        }
        i = i + 1;
    }
    None
}

fn feat_pos(t: &Vec<(Vec<char>, Vec<char>, usize)>, short: &Vec<char>, f: &Vec<char>) -> (r: Option<usize>)
    ensures
        match r {
            Some(i) => feat_index(table_view(t@), short@, f@, 0) == Some(i as nat) && i < t@.len(),
            None => feat_index(table_view(t@), short@, f@, 0) is None,
        },
{
    let ghost tv = table_view(t@);
    let mut i: usize = 0;
    while i < t.len()
        invariant
            i <= t@.len(),
            tv == table_view(t@),
            feat_index(tv, short@, f@, 0) == feat_index(tv, short@, f@, i as nat),
        decreases t.len() - i,
    {
        if chars_eq(&t[i].0, short) && chars_eq(&t[i].1, f) {
            return Some(i);
        }
        i = i + 1;
    }
    None
}

fn edge_pos(es: &Vec<(usize, usize, FeatureMap)>, a: usize, b: usize) -> (r: Option<usize>)
    ensures
        match r {
            Some(i) => edge_index(edges_view(es@), a as nat, b as nat, 0) == Some(i as nat) && i < es@.len(),
            None => edge_index(edges_view(es@), a as nat, b as nat, 0) is None,
        },
{
    let ghost ev = edges_view(es@);
    let mut i: usize = 0;
    while i < es.len()
        invariant
            i <= es@.len(),
            ev == edges_view(es@),
            edge_index(ev, a as nat, b as nat, 0) == edge_index(ev, a as nat, b as nat, i as nat),
        decreases es.len() - i,
    {
        if es[i].0 == a && es[i].1 == b {
            return Some(i);
        }
        i = i + 1;
    }
    None
}

fn set_feat_node_in(t: &mut Vec<(Vec<char>, Vec<char>, usize)>, short: Vec<char>, f: Vec<char>, n: usize)
    ensures
        table_view(final(t)@) == set_feat_node(table_view(old(t)@), short@, f@, n as nat),
{
    let ghost tv = table_view(t@);
    let ghost sv = short@;
    let ghost fv = f@;
    match feat_pos(t, &short, &f) {
        Some(i) => {
            t.remove(i);
            t.insert(i, (short, f, n));
            proof {
                assert(table_view(t@) =~= tv.update(i as int, (sv, fv, n as nat)));
            }
        },
        None => {
            t.push((short, f, n));
            proof {
                assert(table_view(t@) =~= tv.push((sv, fv, n as nat)));
            }
        },
    }
}

impl Builder {
    spec fn view(&self) -> PState {
        PState {
            keys: keys_view(self.keys@),
            node_feats: feats_view(self.node_feats@),
            edges: edges_view(self.edges@),
            feat_nodes: table_view(self.feat_nodes@),
            stack: stack_view(self.stack@),
            last_node: self.last_node as nat,
            last_feat: opt_view(self.last_feat),
            is_feat_first: self.is_feat_first,
        }
    }

    fn new() -> (r: Builder)
        ensures
            r.view() == init_state(),
            r.node_feats@.len() == r.keys@.len(),
    {
        let b = Builder {
            keys: Vec::new(),
            node_feats: Vec::new(),
            edges: Vec::new(),
            feat_nodes: Vec::new(),
            stack: Vec::new(),
            last_node: 0,
            last_feat: None,
            is_feat_first: false,
        };
        proof {
            assert(b.view() =~= init_state());
        }
        b
    }

    fn adjust_stack(&mut self, d: usize)
        ensures
            final(self).view() == adjust(old(self).view(), d as nat),
            final(self).keys == old(self).keys,
            final(self).node_feats == old(self).node_feats,
    {
        let ghost s = self.view();
        if d < self.stack.len() {
            self.stack.truncate(d);
            proof {
                assert(self.view() =~= adjust(s, d as nat));
            }
        } else if d >= 1 && d - 1 == self.stack.len() && !self.is_feat_first {
            let top = (self.last_node, copy_opt(&self.last_feat));
            self.stack.push(top);
            proof {
                assert(self.view() =~= adjust(s, d as nat));
            }
        } else {
            proof {
                assert(self.view() =~= adjust(s, d as nat));
            }
        }
    }

    /// Attaches `node` under the top of the stack (see `machine::attach`).
    fn attach_node(&mut self, node: usize) -> (r: bool)
        ensures
            final(self).keys == old(self).keys,
            final(self).node_feats == old(self).node_feats,
            r == attach(old(self).view(), node as nat, old(self).view().last_feat) is Some,
            r ==> final(self).view() == attach(old(self).view(), node as nat, old(self).view().last_feat)->0,
    {
        let ghost s = self.view();
        if self.stack.len() == 0 {
            return true;
        }
        let top = self.stack.len() - 1;
        let back = self.stack[top].0;
        proof {
            assert(s.stack.last() == (back as nat, opt_view(self.stack@[top as int].1)));
        }
        if back == node {
            return true;
        }
        if back >= self.keys.len() || node >= self.keys.len() {
            return false;
        }
        proof {
            lemma_edge_index(s.edges, back as nat, node as nat, 0);
        }
        let k = match edge_pos(&self.edges, back, node) {
            Some(k) => k,
            None => {
                let k = self.edges.len();
                let empty: FeatureMap = Vec::new();
                proof {
                    assert(fm_view(empty) =~= Seq::empty());
                }
                self.edges.push((back, node, empty));
                proof {
                    assert(edges_view(self.edges@) =~= s.edges.push((back as nat, node as nat, Seq::empty())));
                }
                k
            },
        };
        let ghost es = edges_view(self.edges@);
        match &self.stack[top].1 {
            Some(bf) => match &self.last_feat {
                Some(f) => {
                    let bfs = text_of(bf);
                    let fs = text_of(f);
                    let (a, b, mut m) = self.edges.remove(k);
                    fm_push_in(&mut m, bfs, fs);
                    self.edges.insert(k, (a, b, m));
                    proof {
                        assert(edges_view(self.edges@) =~= es.update(k as int, (back as nat, node as nat, fm_push(es[k as int].2, bf@, f@))));
                        assert(self.view() =~= attach(s, node as nat, s.last_feat)->0);
                    }
                    true
                },
                None => false,
            },
            None => {
                proof {
                    assert(self.view() =~= attach(s, node as nat, s.last_feat)->0);
                }
                true
            },
        }
    }

    /// The node of the crate entry `lib`, added if new.
    fn node_for_lib(&mut self, lib: &Vec<char>) -> (r: usize)
        ensures
            (final(self).view(), r as nat) == node_for(old(self).view(), lib@),
            final(self).keys@.len() >= old(self).keys@.len(),
            r < final(self).keys@.len(),
            old(self).node_feats@.len() == old(self).keys@.len() ==> final(self).node_feats@.len() == final(self).keys@.len(),
    {
        let ghost s = self.view();
        proof {
            lemma_key_index(s.keys, lib@, 0);
        }
        match key_pos(&self.keys, lib) {
            Some(w) => w,
            None => {
                let w = self.keys.len();
                self.keys.push(copy_chars(lib));
                let empty: FeatureMap = Vec::new();
                proof {
                    assert(fm_view(empty) =~= Seq::empty());
                }
                self.node_feats.push(empty);
                proof {
                    assert(keys_view(self.keys@) =~= s.keys.push(lib@));
                    assert(feats_view(self.node_feats@) =~= s.node_feats.push(Seq::empty()));
                    assert(self.view() =~= node_for(s, lib@).0);
                }
                w
            },
        }
    }

    /// A crate line right after the feature line naming it (see
    /// `machine::expand`).
    fn expand_feature(&mut self, n: usize, short: Vec<char>) -> (r: bool)
        requires
            n < old(self).node_feats@.len(),
        ensures
            r == expand(old(self).view(), n as nat, short@) is Some,
            r ==> final(self).view() == expand(old(self).view(), n as nat, short@)->0,
            final(self).keys == old(self).keys,
            final(self).node_feats@.len() == old(self).node_feats@.len(),
    {
        let ghost s = self.view();
        let ghost sv = short@;
        match &self.last_feat {
            Some(f) => {
                let fc = copy_chars(f);
                let fs = text_of(f);
                let ghost fv = f@;
                set_feat_node_in(&mut self.feat_nodes, short, fc, n);
                let mut m = self.node_feats.remove(n);
                fm_reset_in(&mut m, fs);
                self.node_feats.insert(n, m);
                let ghost nf = s.node_feats.update(n as int, fm_reset(s.node_feats[n as int], fv));
                proof {
                    assert(feats_view(self.node_feats@) =~= nf);
                }
                if self.stack.len() > 0 {
                    let top = self.stack.len() - 1;
                    proof {
                        assert(s.stack.last() == (self.stack@[top as int].0 as nat, opt_view(self.stack@[top as int].1)));
                    }
                    if self.stack[top].0 == n {
                        match &self.stack[top].1 {
                            Some(bf) => {
                                let bfs = text_of(bf);
                                let fs2 = text_of(f);
                                let ghost nfv = feats_view(self.node_feats@);
                                let mut m = self.node_feats.remove(n);
                                let had = fm_push_in(&mut m, bfs, fs2);
                                self.node_feats.insert(n, m);
                                proof {
                                    assert(nfv == nf);
                                    assert(s.stack.last().1 == Some(bf@));
                                    assert(feats_view(self.node_feats@) =~= nf.update(n as int, fm_push(nf[n as int], bf@, fv)));
                                    if had {
                                        assert(self.view() =~= expand(s, n as nat, sv)->0);
                                    }
                                }
                                return had;
                            },
                            None => {},
                        }
                    }
                }
                proof {
                    assert(self.view() =~= expand(s, n as nat, sv)->0);
                }
                true
            },
            None => false,
        }
    }

    /// Reads the well-formed line `l` (see `machine::step`).
    fn step_line(&mut self, info: &LineInfo, l: &Vec<char>) -> (r: bool)
        requires
            line_ok(l@),
            info.depth == line_depth(l@),
            info.lib@ == line_lib(l@),
            info.repeats == line_repeats(l@),
            info.feat is None <==> is_crate_line(l@),
            forall|f: Vec<char>| info.feat == Some(f) ==> line_feature(l@) == Some(f@),
            info.space < info.lib@.len(),
            find_from(info.lib@, seq![' '], 0) == Some(info.space as nat),
            old(self).node_feats@.len() == old(self).keys@.len(),
        ensures
            final(self).node_feats@.len() == final(self).keys@.len(),
            r == step(old(self).view(), l@) is Some,
            r ==> final(self).view() == step(old(self).view(), l@)->0,
    {
        let ghost s = self.view();
        proof {
            reveal(is_crate_line);
        }
        self.adjust_stack(info.depth);
        let short = slice_of(&info.lib, 0, info.space);
        proof {
            assert(short@ == short_of(line_lib(l@)));
        }
        match &info.feat {
            Some(feat) => {
                self.last_feat = Some(copy_chars(feat));
                if info.repeats {
                    match feat_pos(&self.feat_nodes, &short, feat) {
                        Some(i) => {
                            let node = self.feat_nodes[i].2;
                            self.attach_node(node)
                        },
                        None => false,
                    }
                } else {
                    self.is_feat_first = true;
                    true
                }
            },
            None => {
                let n = self.node_for_lib(&info.lib);
                if self.is_feat_first {
                    if !self.expand_feature(n, short) {
                        return false;
                    }
                } else {
                    self.last_feat = None;
                }
                if !self.attach_node(n) {
                    return false;
                }
                self.last_node = n;
                if self.is_feat_first {
                    let top = (n, copy_opt(&self.last_feat));
                    self.stack.push(top);
                    self.last_feat = None;
                }
                self.is_feat_first = false;
                true
            },
        }
    }
}

/// Runs the stack machine over every line.
fn read_all(lines: &Vec<Vec<char>>) -> (r: Result<Builder, TreeError>)
    ensures
        match r {
            Ok(b) => run(keys_view(lines@), lines@.len()) == Ok::<PState, TreeError>(b.view()),
            Err(e) => run(keys_view(lines@), lines@.len()) == Err::<PState, TreeError>(e),
        },
{
    let ghost lv = keys_view(lines@);
    let mut b = Builder::new();
    let mut i: usize = 0;
    while i < lines.len()
        invariant
            i <= lines@.len(),
            lv == keys_view(lines@),
            run(lv, i as nat) == Ok::<PState, TreeError>(b.view()),
            b.node_feats@.len() == b.keys@.len(),
        decreases lines.len() - i,
    {
        let line = &lines[i];
        proof {
            assert(lv[i as int] == line@);
        }
        if line.len() == 0 {
            proof {
                lemma_run_err_stays(lv, (i + 1) as nat, lv.len());
            }
            return Err(TreeError::NoSingleRoot);
        }
        let info = match read_line(line) {
            Some(x) => x,
            None => {
                proof {
                    lemma_run_err_stays(lv, (i + 1) as nat, lv.len());
                }
                return Err(TreeError::Malformed(i));
            },
        };
        if !b.step_line(&info, line) {
            proof {
                lemma_run_err_stays(lv, (i + 1) as nat, lv.len());
            }
            return Err(TreeError::Malformed(i));
        }
        i = i + 1;
    }
    Ok(b)
}

/// Once the machine stops, it stays stopped with the same error.
proof fn lemma_run_err_stays(ls: Seq<Seq<char>>, n: nat, m: nat)
    requires
        n <= m <= ls.len(),
        1 <= n,
        run(ls, n) is Err,
    ensures
        run(ls, m) == run(ls, n),
    decreases m - n,
{
    if n < m {
        lemma_run_err_stays(ls, n, (m - 1) as nat);
    }
}

/// Each state the machine reaches is consistent.
proof fn lemma_run_ok(ls: Seq<Seq<char>>, n: nat)
    requires
        run(ls, n) is Ok,
    ensures
        state_ok(run(ls, n)->Ok_0),
    decreases n,
{
    if n > 0 && n <= ls.len() {
        lemma_run_ok(ls, (n - 1) as nat);
        let s = run(ls, (n - 1) as nat)->Ok_0;
        lemma_step_ok(s, ls[n - 1]);
    }
}

proof fn lemma_edge_index(es: Seq<(nat, nat, FMap)>, a: nat, b: nat, i: nat)
    ensures
        match edge_index(es, a, b, i) {
            Some(k) => i <= k < es.len() && es[k as int].0 == a && es[k as int].1 == b,
            None => forall|k: int| i <= k < es.len() ==> !(es[k].0 == a && es[k].1 == b),
        },
    decreases es.len() - i,
{
    if i < es.len() {
        lemma_edge_index(es, a, b, i + 1);
    }
}

proof fn lemma_key_index(keys: Seq<Seq<char>>, lib: Seq<char>, i: nat)
    ensures
        match key_index(keys, lib, i) {
            Some(w) => i <= w < keys.len(),
            None => true,
        },
    decreases keys.len() - i,
{
    if i < keys.len() {
        lemma_key_index(keys, lib, i + 1);
    }
}

proof fn lemma_attach_ok(s: PState, node: nat, feat: Option<Seq<char>>)
    requires
        state_ok(s),
        attach(s, node, feat) is Some,
    ensures
        state_ok(attach(s, node, feat)->0),
        attach(s, node, feat)->0.keys == s.keys,
        attach(s, node, feat)->0.node_feats == s.node_feats,
{
    if s.stack.len() > 0 && s.stack.last().0 != node {
        let back = s.stack.last().0;
        lemma_edge_index(s.edges, back, node, 0);
        let t = attach(s, node, feat)->0;
        assert forall|k: int, j: int| 0 <= k < t.edges.len() && 0 <= j < t.edges.len() && #[trigger] t.edges[k].0 == #[trigger] t.edges[j].0
            && t.edges[k].1 == t.edges[j].1 implies k == j by {
            if k < s.edges.len() && j < s.edges.len() {
                assert(s.edges[k].0 == s.edges[j].0);
            } else if k < s.edges.len() {
                assert(s.edges[k].0 == back);
            } else if j < s.edges.len() {
                assert(s.edges[j].0 == back);
            }
        }
        assert forall|k: int| 0 <= k < t.edges.len() implies #[trigger] t.edges[k].0 < t.keys.len() && t.edges[k].1 < t.keys.len()
            && t.edges[k].0 != t.edges[k].1 by {
            if k < s.edges.len() {
                assert(s.edges[k].0 < s.keys.len());
            }
        }
    }
}

proof fn lemma_step_ok(s: PState, l: Seq<char>)
    requires
        state_ok(s),
        step(s, l) is Some,
    ensures
        state_ok(step(s, l)->0),
{
    let lib = line_lib(l);
    let s1 = adjust(s, line_depth(l));
    assert(state_ok(s1));
    match line_feature(l) {
        Some(f) => {
            let s2 = PState { last_feat: Some(f), ..s1 };
            assert(state_ok(s2));
            if line_repeats(l) {
                let i = feat_index(s2.feat_nodes, short_of(lib), f, 0)->0;
                lemma_attach_ok(s2, s2.feat_nodes[i as int].2, s2.last_feat);
            }
        },
        None => {
            let s3 = node_for(s1, lib).0;
            let n = node_for(s1, lib).1;
            lemma_key_index(s1.keys, lib, 0);
            assert(state_ok(s3));
            assert(n < s3.keys.len());
            let s4 = if s3.is_feat_first { expand(s3, n, short_of(lib)) } else { Some(PState { last_feat: None, ..s3 }) };
            let s4v = s4->0;
            assert(state_ok(s4v));
            lemma_attach_ok(s4v, n, s4v.last_feat);
        },
    }
}

/// The graph a final state describes, with its crates' names and features
/// and its relations' features.
pub open spec fn graph_of(g: Graph, s: PState) -> bool {
    &&& g.wf()
    &&& g.no_vacancy()
    &&& g@ == state_view(s)
    &&& forall|w: nat| #![trigger g.weight_of(w)] w < s.keys.len() ==> {
        &&& g.weight_of(w).short_spec() == underscored(short_of(s.keys[w as int]))
        &&& g.weight_of(w).extra_spec() == extra_of(s.keys[w as int])
        &&& g.weight_of(w).full_spec() == underscored(short_of(s.keys[w as int])) + seq![' '] + extra_of(s.keys[w as int])
        &&& fm_view(g.weight_of(w).features_spec()) == s.node_feats[w as int]
    }
    &&& forall|k: int| 0 <= k < s.edges.len() ==> fm_view(g.edge_weight_of(s.edges[k].0, s.edges[k].1).features_spec()) == #[trigger] s.edges[k].2
}

impl Builder {
    /// The graph of the final state: node `i` for the `i`-th crate, rooted at
    /// node 0, or why there is none.
    fn finish(self) -> (r: Result<Graph, TreeError>)
        requires
            state_ok(self.view()),
        ensures
            self.view().keys.len() == 0 ==> r == Err::<Graph, TreeError>(TreeError::NoSingleRoot),
            self.view().keys.len() > 0 && !state_view(self.view()).acyclic() ==> r == Err::<Graph, TreeError>(TreeError::Cyclic),
            self.view().keys.len() > 0 && state_view(self.view()).acyclic() ==> r is Ok && graph_of(r->Ok_0, self.view())
                && r->Ok_0.size_table().len() == 0,
    {
        let ghost s = self.view();
        let n = self.keys.len();
        if n == 0 {
            return Err(TreeError::NoSingleRoot);
        }
        let keys = self.keys;
        let mut node_feats = self.node_feats;
        let mut edges = self.edges;
        // Crate weights, last crate first.
        let mut weights: Vec<NodeWeight> = Vec::new();
        let mut j: usize = 0;
        while j < n
            invariant
                n == keys@.len(),
                keys_view(keys@) == s.keys,
                s.node_feats.len() == n,
                j <= n,
                node_feats@.len() == n - j,
                forall|w: int| 0 <= w < n - j ==> fm_view(#[trigger] node_feats@[w]) == s.node_feats[w],
                weights@.len() == j,
                forall|q: int| 0 <= q < j ==> {
                    let w = n - 1 - q;
                    &&& (#[trigger] weights@[q]).short_spec() == underscored(short_of(s.keys[w]))
                    &&& weights@[q].extra_spec() == extra_of(s.keys[w])
                    &&& weights@[q].full_spec() == underscored(short_of(s.keys[w])) + seq![' '] + extra_of(s.keys[w])
                    &&& fm_view(weights@[q].features_spec()) == s.node_feats[w]
                },
            decreases n - j,
        {
            let f = node_feats.pop().unwrap();
            let w = n - 1 - j;
            proof {
                assert(keys_view(keys@)[w as int] == keys@[w as int]@);
            }
            let (short, extra) = split_entry(&keys[w]);
            let nw = NodeWeight::new(text_of(&underscore_of(&short)), text_of(&extra), f);
            weights.push(nw);
            j = j + 1;
        }
        // Relation weights, last relation first.
        let ghost ws = weights@;
        let m = edges.len();
        let mut edge_weights: Vec<EdgeWeight> = Vec::new();
        let mut pg = pg_new();
        let mut v: usize = 0;
        while v < n
            invariant
                v <= n,
                pg_node_slots(pg) == v,
                pg_nodes(pg).dom() == Set::new(|x: nat| x < v),
                forall|x: nat| x < v ==> #[trigger] pg_nodes(pg)[x] == n - 1 - x,
                pg_edges(pg).dom() == Set::<nat>::empty(),
            decreases n - v,
        {
            proof {
                lemma_below_len(v as nat);
            }
            let id = pg_add_node(&mut pg, n - 1 - v);
            proof {
                assert(id == v);
                assert(pg_nodes(pg).dom() =~= Set::new(|x: nat| x < v + 1));
            }
            v = v + 1;
        }
        let mut q: usize = 0;
        while q < m
            invariant
                q <= m,
                m == s.edges.len(),
                state_ok(s),
                s.keys.len() == n,
                edges@.len() == m - q,
                forall|k: int| 0 <= k < m - q ==> (#[trigger] edges@[k]).0 as nat == s.edges[k].0 && edges@[k].1 as nat == s.edges[k].1
                    && fm_view(edges@[k].2) == s.edges[k].2,
                edge_weights@.len() == q,
                forall|t: int| 0 <= t < q ==> fm_view((#[trigger] edge_weights@[t]).features_spec()) == s.edges[m - 1 - t].2,
                pg_nodes(pg).dom() == Set::new(|x: nat| x < n),
                pg_node_slots(pg) == n,
                forall|x: nat| x < n ==> #[trigger] pg_nodes(pg)[x] == n - 1 - x,
                pg_edges(pg).dom().finite(),
                forall|e: nat| #[trigger] pg_edges(pg).contains_key(e) ==> pg_edges(pg)[e].2 < q
                    && pg_edges(pg)[e].0 == s.edges[m - 1 - pg_edges(pg)[e].2].0 && pg_edges(pg)[e].1 == s.edges[m - 1 - pg_edges(pg)[e].2].1,
                forall|t: int| 0 <= t < q ==> #[trigger] edge_with_weight(pg, t),
                forall|e1: nat, e2: nat| #[trigger] pg_edges(pg).contains_key(e1) && #[trigger] pg_edges(pg).contains_key(e2)
                    && pg_edges(pg)[e1].2 == pg_edges(pg)[e2].2 ==> e1 == e2,
            decreases m - q,
        {
            let (a, b, f) = edges.pop().unwrap();
            let ghost k = m - 1 - q;
            proof {
                assert(s.edges[k].0 < n && s.edges[k].1 < n);
            }
            edge_weights.push(EdgeWeight::new(f));
            let ghost before = pg;
            let e = pg_add_edge(&mut pg, a, b, q);
            proof {
                assert forall|t: int| 0 <= t < q + 1 implies #[trigger] edge_with_weight(pg, t) by {
                    if t < q {
                        assert(edge_with_weight(before, t));
                        let e2 = choose|e2: nat| #[trigger] pg_edges(before).contains_key(e2) && pg_edges(before)[e2].2 == t;
                        assert(pg_edges(pg).contains_key(e2));
                    } else {
                        assert(pg_edges(pg).contains_key(e as nat));
                    }
                }
                assert forall|e1: nat, e2: nat| #[trigger] pg_edges(pg).contains_key(e1) && #[trigger] pg_edges(pg).contains_key(e2)
                    && pg_edges(pg)[e1].2 == pg_edges(pg)[e2].2 implies e1 == e2 by {
                    if e1 != e as nat && e2 != e as nat {
                        assert(pg_edges(before).contains_key(e1) && pg_edges(before).contains_key(e2));
                    } else if e1 != e as nat {
                        assert(pg_edges(before).contains_key(e1));
                    } else if e2 != e as nat {
                        assert(pg_edges(before).contains_key(e2));
                    }
                }
            }
            q = q + 1;
        }
        proof {
            lemma_below_len(n as nat);
            lemma_parts(pg, s, n as nat);
            assert(pg_nodes(pg).dom().len() == pg_node_slots(pg));
        }
        let ghost ews = edge_weights@;
        match Graph::from_parts(pg, weights, edge_weights, 0) {
            Some(g) => {
                proof {
                    lemma_edge_set(pg, s, n as nat);
                    lemma_graph_of(g, pg, s, n as nat, ws, ews);
                }
                Ok(g)
            },
            None => {
                proof {
                    assert(Graph::view_of(pg, 0) =~= state_view(s)) by {
                        lemma_edge_set(pg, s, n as nat);
                    }
                }
                Err(TreeError::Cyclic)
            },
        }
    }
}

/// The numbers below `v`: `v` of them.
proof fn lemma_below_len(v: nat)
    ensures
        Set::new(|x: nat| x < v).finite(),
        Set::new(|x: nat| x < v).len() == v,
    decreases v,
{
    if v == 0 {
        assert(Set::new(|x: nat| x < v) =~= Set::<nat>::empty());
    } else {
        lemma_below_len((v - 1) as nat);
        assert(Set::new(|x: nat| x < v) =~= Set::new(|x: nat| x < (v - 1) as nat).insert((v - 1) as nat));
    }
}

/// Some edge of `pg` has weight `t`.
spec fn edge_with_weight(pg: Pg, t: int) -> bool {
    exists|e: nat| #[trigger] pg_edges(pg).contains_key(e) && pg_edges(pg)[e].2 == t
}

/// The facts that building the store established.
spec fn built(pg: Pg, s: PState, n: nat) -> bool {
    let m = s.edges.len();
    &&& state_ok(s)
    &&& s.keys.len() == n
    &&& n > 0
    &&& n <= usize::MAX
    &&& pg_nodes(pg).dom() == Set::new(|x: nat| x < n)
    &&& forall|x: nat| x < n ==> #[trigger] pg_nodes(pg)[x] == n - 1 - x
    &&& pg_edges(pg).dom().finite()
    &&& forall|e: nat| #[trigger] pg_edges(pg).contains_key(e) ==> pg_edges(pg)[e].2 < m
        && pg_edges(pg)[e].0 == s.edges[m - 1 - pg_edges(pg)[e].2].0 && pg_edges(pg)[e].1 == s.edges[m - 1 - pg_edges(pg)[e].2].1
    &&& forall|t: int| 0 <= t < m ==> #[trigger] edge_with_weight(pg, t)
    &&& forall|e1: nat, e2: nat| #[trigger] pg_edges(pg).contains_key(e1) && #[trigger] pg_edges(pg).contains_key(e2)
        && pg_edges(pg)[e1].2 == pg_edges(pg)[e2].2 ==> e1 == e2
}

proof fn lemma_parts(pg: Pg, s: PState, n: nat)
    requires
        built(pg, s, n),
    ensures
        Graph::parts_ok(pg, n, s.edges.len(), 0),
{
    let m = s.edges.len();
    lemma_below_len(n);
    let edges = pg_edges(pg);
    assert forall|e: nat| #[trigger] edges.contains_key(e) implies {
        &&& pg_nodes(pg).contains_key(edges[e].0)
        &&& pg_nodes(pg).contains_key(edges[e].1)
        &&& edges[e].0 != edges[e].1
        &&& edges[e].2 < m
    } by {
        let k = m - 1 - edges[e].2;
        assert(s.edges[k].0 < n && s.edges[k].1 < n && s.edges[k].0 != s.edges[k].1);
    }
    assert forall|e1: nat, e2: nat|
        #[trigger] edges.contains_key(e1) && #[trigger] edges.contains_key(e2) && edges[e1].0 == edges[e2].0
            && edges[e1].1 == edges[e2].1 implies e1 == e2 by {
        let k1 = m - 1 - edges[e1].2;
        let k2 = m - 1 - edges[e2].2;
        assert(s.edges[k1].0 == s.edges[k2].0);
    }
    assert(pg_nodes(pg).contains_key(0));
}

proof fn lemma_edge_set(pg: Pg, s: PState, n: nat)
    requires
        built(pg, s, n),
    ensures
        pg_edge_set(pg) == state_view(s).edges,
{
    let m = s.edges.len();
    let edges = pg_edges(pg);
    assert forall|p: (nat, nat)| pg_edge_set(pg).contains(p) <==> state_view(s).edges.contains(p) by {
        if pg_edge_set(pg).contains(p) {
            let e = choose|e: nat| #[trigger] edges.contains_key(e) && edges[e].0 == p.0 && edges[e].1 == p.1;
            let k = m - 1 - edges[e].2;
            assert(s.edges[k].0 == p.0);
        }
        if state_view(s).edges.contains(p) {
            let k = choose|k: int| 0 <= k < s.edges.len() && #[trigger] s.edges[k].0 == p.0 && s.edges[k].1 == p.1;
            let t = m - 1 - k;
            assert(edge_with_weight(pg, t));
            let e = choose|e: nat| #[trigger] edges.contains_key(e) && edges[e].2 == t;
            assert(pg_has_edge(pg, p.0, p.1));
        }
    }
    assert(pg_edge_set(pg) =~= state_view(s).edges);
}

proof fn lemma_graph_of(g: Graph, pg: Pg, s: PState, n: nat, ws: Seq<NodeWeight>, ews: Seq<EdgeWeight>)
    requires
        built(pg, s, n),
        pg_edge_set(pg) == state_view(s).edges,
        g.wf(),
        g.no_vacancy(),
        g@ == Graph::view_of(pg, 0),
        forall|v: nat| #[trigger] g@.nodes.contains(v) ==> g.weight_of(v) == ws[pg_nodes(pg)[v] as int],
        forall|e: nat| #[trigger] pg_edges(pg).contains_key(e) ==> g.edge_weight_of(pg_edges(pg)[e].0, pg_edges(pg)[e].1)
            == ews[pg_edges(pg)[e].2 as int],
        ws.len() == n,
        forall|q: int| 0 <= q < n ==> {
            let w = n - 1 - q;
            &&& (#[trigger] ws[q]).short_spec() == underscored(short_of(s.keys[w]))
            &&& ws[q].extra_spec() == extra_of(s.keys[w])
            &&& ws[q].full_spec() == underscored(short_of(s.keys[w])) + seq![' '] + extra_of(s.keys[w])
            &&& fm_view(ws[q].features_spec()) == s.node_feats[w]
        },
        forall|t: int| 0 <= t < s.edges.len() ==> fm_view((#[trigger] ews[t]).features_spec()) == s.edges[s.edges.len() - 1 - t].2,
    ensures
        graph_of(g, s),
{
    let m = s.edges.len();
    assert(g@ =~= state_view(s));
    assert forall|w: nat| #![trigger g.weight_of(w)] w < s.keys.len() implies {
        &&& g.weight_of(w).short_spec() == underscored(short_of(s.keys[w as int]))
        &&& g.weight_of(w).extra_spec() == extra_of(s.keys[w as int])
        &&& g.weight_of(w).full_spec() == underscored(short_of(s.keys[w as int])) + seq![' '] + extra_of(s.keys[w as int])
        &&& fm_view(g.weight_of(w).features_spec()) == s.node_feats[w as int]
    } by {
        assert(g@.nodes.contains(w));
        let q = n - 1 - w;
        assert(ws[q].short_spec() == underscored(short_of(s.keys[w as int])));
    }
    assert forall|k: int| 0 <= k < s.edges.len() implies fm_view(g.edge_weight_of(s.edges[k].0, s.edges[k].1).features_spec())
        == #[trigger] s.edges[k].2 by {
        let t = m - 1 - k;
        assert(edge_with_weight(pg, t));
        let e = choose|e: nat| #[trigger] pg_edges(pg).contains_key(e) && pg_edges(pg)[e].2 == t;
        assert(fm_view(ews[t].features_spec()) == s.edges[m - 1 - t].2);
    }
}

/// The dependency graph that the lines of a `cargo tree` listing (with
/// `--prefix=depth` and feature edges) describe: see `machine::parse_spec`.
/// It succeeds exactly when every line is non-empty and well formed, every
/// repeated feature refers back to one expanded before, some line lists a
/// crate, and the relations have no cycle; node `i` is then the `i`-th crate
/// entry met, node 0 the root.
pub fn parse_lines(lines: &Vec<Vec<char>>) -> (r: Result<Graph, TreeError>)
    ensures
        match parse_spec(keys_view(lines@)) {
            Ok(s) => r is Ok && graph_of(r->Ok_0, s) && r->Ok_0.size_table().len() == 0,
            Err(e) => r == Err::<Graph, TreeError>(e),
        },
{
    if lines.len() == 0 {
        return Err(TreeError::NoSingleRoot);
    }
    let b = match read_all(lines) {
        Ok(b) => b,
        Err(e) => {
            return Err(e);
        },
    };
    proof {
        lemma_run_ok(keys_view(lines@), lines@.len());
    }
    b.finish()
}


/// The dependency graph of a `cargo tree` listing: `parse_lines` on the lines
/// of `text`.
pub fn get_dep_graph(text: &str) -> (r: Result<Graph, TreeError>)
    ensures
        match parse_spec(lines_of(text@)) {
            Ok(s) => r is Ok && graph_of(r->Ok_0, s) && r->Ok_0.size_table().len() == 0,
            Err(e) => r == Err::<Graph, TreeError>(e),
        },
{
    let chars = chars_of(text);
    let lines = split_lines(&chars);
    proof {
        assert(keys_view(lines@) =~= lines_of(text@));
    }
    parse_lines(&lines)
}

/// The crates and byte counts of a `cargo bloat` JSON report, in order.
pub uninterp spec fn bloat_entries(json: Seq<char>) -> Option<Seq<(Seq<char>, u64)>>;

/// Relies on `serde_json::from_str` into a `serde_json::Value` and its
/// accessors `get`, `as_array`, `as_str` and `as_u64`: the report's `crates`
/// array, each element's `name` string and `size` integer, or `None` where the
/// text is not such a report.
#[verifier::external_body]
fn read_bloat(json: &str) -> (r: Option<Vec<(String, u64)>>)
    ensures
        match r {
            Some(v) => bloat_entries(json@) == Some(v@.map_values(|e: (String, u64)| (e.0@, e.1))),
            None => bloat_entries(json@) is None,
        },
{
    let value: serde_json::Value = serde_json::from_str(json).ok()?;
    let crates = value.get("crates")?.as_array()?;
    crates.iter().map(|c| Some((c.get("name")?.as_str()?.to_string(), c.get("size")?.as_u64()?))).collect()
}

/// The size table of a report's entries, last entry first, so that the later
/// of two entries with one name is the one found.
pub fn size_table_of(entries: &Vec<(String, u64)>) -> (r: Vec<(String, usize)>)
    ensures
        r@.len() == entries@.len(),
        forall|k: int|
            #![trigger r@[k]]
            0 <= k < r@.len() ==> r@[k].0@ == entries@[entries@.len() - 1 - k].0@ && r@[k].1
                == entries@[entries@.len() - 1 - k].1 as usize,
{
    let mut r: Vec<(String, usize)> = Vec::new();
    let mut i: usize = entries.len();
    while i > 0
        invariant
            i <= entries@.len(),
            r@.len() == entries@.len() - i,
            forall|k: int|
                #![trigger r@[k]]
                0 <= k < r@.len() ==> r@[k].0@ == entries@[entries@.len() - 1 - k].0@ && r@[k].1
                    == entries@[entries@.len() - 1 - k].1 as usize,
        decreases i,
    {
        i = i - 1;
        let name = entries[i].0.clone();
        let size = entries[i].1 as usize;
        r.push((name, size));
    }
    r
}

/// The size table of a `cargo bloat` JSON report, or `None` where the text
/// is not such a report.
pub fn get_size_map(json: &str) -> (r: Option<Vec<(String, usize)>>)
    ensures
        bloat_entries(json@) is None <==> r is None,
        match r {
            Some(t) => {
                let e = bloat_entries(json@)->0;
                &&& t@.len() == e.len()
                &&& forall|k: int| #![trigger t@[k]] 0 <= k < t@.len() ==> t@[k].0@ == e[e.len() - 1 - k].0 && t@[k].1 == e[e.len() - 1 - k].1 as usize
            },
            None => true,
        },
{
    match read_bloat(json) {
        Some(entries) => {
            let t = size_table_of(&entries);
            Some(t)
        },
        None => None,
    }
}

/// Why no graph could be built.
#[derive(Debug, PartialEq, Eq)]
pub enum GraphError {
    /// The `cargo tree` listing gives no graph.
    Tree(TreeError),
    /// The `cargo bloat` report is not a JSON object with a `crates` array of
    /// `name` and `size` entries.
    Sizes,
}

/// A byte count shared among `count` crates (rounding down); one that no
/// crate has stays as it is.
pub open spec fn shared(size: usize, count: nat) -> usize {
    if count == 0 {
        size
    } else {
        (size as nat / count) as usize
    }
}

impl Graph {
    /// The graph of a `cargo tree` listing with the sizes of a `cargo bloat`
    /// JSON report, each size shared among the crates of its short name.
    pub fn new(cargo_tree_output: &str, cargo_bloat_output: &str) -> (r: Result<Graph, GraphError>)
        ensures
            match parse_spec(lines_of(cargo_tree_output@)) {
                Err(e) => r == Err::<Graph, GraphError>(GraphError::Tree(e)),
                Ok(s) => match bloat_entries(cargo_bloat_output@) {
                    None => r == Err::<Graph, GraphError>(GraphError::Sizes),
                    Some(es) => {
                        &&& r is Ok
                        &&& graph_of(r->Ok_0, s)
                        &&& r->Ok_0.size_table().len() == es.len()
                        &&& forall|k: int| 0 <= k < es.len() ==> #[trigger] r->Ok_0.size_table()[k] == (
                            es[es.len() - 1 - k].0,
                            shared(es[es.len() - 1 - k].1 as usize, r->Ok_0.short_count(es[es.len() - 1 - k].0)),
                        )
                    },
                },
            },
    {
        let mut graph = match get_dep_graph(cargo_tree_output) {
            Ok(g) => g,
            Err(e) => {
                return Err(GraphError::Tree(e));
            },
        };
        let table = match get_size_map(cargo_bloat_output) {
            Some(t) => t,
            None => {
                return Err(GraphError::Sizes);
            },
        };
        let ghost g0 = graph;
        graph.set_size_map(table);
        let ghost g1 = graph;
        graph.normalize_sizes();
        proof {
            let s = parse_spec(lines_of(cargo_tree_output@))->Ok_0;
            assert(graph@ == g0@);
            assert forall|w: nat| #![trigger graph.weight_of(w)] w < s.keys.len() implies graph.weight_of(w) == g0.weight_of(w) by {
                assert(g0@.nodes.contains(w));
                assert(g1.weight_of(w) == g0.weight_of(w));
            }
            assert forall|k: int| 0 <= k < s.edges.len() implies graph.edge_weight_of(s.edges[k].0, s.edges[k].1)
                == g0.edge_weight_of(s.edges[k].0, s.edges[k].1) by {
                assert(g1.edge_weight_of(s.edges[k].0, s.edges[k].1) == g0.edge_weight_of(s.edges[k].0, s.edges[k].1));
            }
            assert(graph_of(graph, s));
            let es = bloat_entries(cargo_bloat_output@)->0;
            assert forall|k: int| 0 <= k < es.len() implies #[trigger] graph.size_table()[k] == (
                es[es.len() - 1 - k].0,
                shared(es[es.len() - 1 - k].1 as usize, graph.short_count(es[es.len() - 1 - k].0)),
            ) by {
                assert(g1.size_table()[k] == (table@[k].0@, table@[k].1));
            }
        }
        Ok(graph)
    }
}

} // verus!
