use pugio_lib::cargo::{get_dep_graph, get_size_map, parse_lines, GraphError, TreeError};
use pugio_lib::coloring::{
    default_opt_scheme, node_classes, parse_highlight, parse_scheme, NodeColoringScheme, NodeColoringValues,
};
use pugio_lib::graph::{Graph, SelectorError};
use pugio_lib::tree::{chars_of, read_line, split_lines};

const NO_SIZES: &str = r#"{"crates": []}"#;

fn index_of(g: &Graph, short: &str) -> usize {
    g.node_indices()
        .into_iter()
        .find(|i| g.node_weight(*i).unwrap().short() == short)
        .unwrap()
}

fn shorts(g: &Graph, indices: &[usize]) -> Vec<String> {
    let mut names: Vec<String> = indices
        .iter()
        .map(|i| g.node_weight(*i).unwrap().short().to_string())
        .collect();
    names.sort();
    names
}

fn all_shorts(g: &Graph) -> Vec<String> {
    shorts(g, &g.node_indices())
}

const CHAIN: &str = "0root v0.1.0\n1a v1.0.0\n2b v2.0.0\n1b v2.0.0 (*)\n";

#[test]
fn basic_chain_nodes_and_edges() {
    let g = Graph::new(CHAIN, NO_SIZES).unwrap();
    assert_eq!(g.node_count(), 3);
    assert_eq!(all_shorts(&g), vec!["a", "b", "root"]);
    let root = index_of(&g, "root");
    let a = index_of(&g, "a");
    let b = index_of(&g, "b");
    assert_eq!(g.root(), root);
    assert_eq!(shorts(&g, &g.children(root)), vec!["a", "b"]);
    assert_eq!(shorts(&g, &g.children(a)), vec!["b"]);
    assert!(g.children(b).is_empty());
}

#[test]
fn basic_chain_dep_counts() {
    let g = Graph::new(CHAIN, NO_SIZES).unwrap();
    let counts = NodeColoringValues::dep_counts(&g);
    let v = counts.values();
    assert_eq!(v[index_of(&g, "b")], 0);
    assert_eq!(v[index_of(&g, "a")], 1);
    assert_eq!(v[index_of(&g, "root")], 3);
    assert_eq!(counts.max(), 3);
    assert_eq!(counts.scheme(), NodeColoringScheme::DepCount);
}

#[test]
fn depth_pruning_keeps_first_level() {
    let text = "0root v0.1.0\n1a v1.0.0\n2b v1.0.0\n3c v1.0.0\n";
    let mut g = Graph::new(text, NO_SIZES).unwrap();
    g.remove_deep_deps(1);
    assert_eq!(all_shorts(&g), vec!["a", "root"]);
}

#[test]
fn depth_zero_keeps_root_and_std() {
    let text = "0root v0.1.0\n1a v1.0.0\n";
    let mut g = Graph::new(text, NO_SIZES).unwrap();
    g.add_std();
    g.remove_deep_deps(0);
    assert_eq!(all_shorts(&g), vec!["root", "std"]);
}

const DIAMOND: &str = "0a v1.0.0\n1b v1.0.0\n2d v1.0.0\n1c v1.0.0\n2d v1.0.0 (*)\n";
const DIAMOND_SIZES: &str = r#"{"crates": [{"name": "a", "size": 100}, {"name": "b", "size": 20}, {"name": "c", "size": 30}, {"name": "d", "size": 40}]}"#;

#[test]
fn diamond_cumulative_sizes_conserve() {
    let g = Graph::new(DIAMOND, DIAMOND_SIZES).unwrap();
    let sums = NodeColoringValues::cum_sums(&g);
    let v = sums.values();
    assert_eq!(v[index_of(&g, "d")], 40);
    assert_eq!(v[index_of(&g, "b")], 40);
    assert_eq!(v[index_of(&g, "c")], 50);
    assert_eq!(v[index_of(&g, "a")], 190);
    assert_eq!(sums.max(), 190);
}

#[test]
fn diamond_cumulative_sizes_round_down() {
    let sizes = r#"{"crates": [{"name": "d", "size": 41}]}"#;
    let g = Graph::new(DIAMOND, sizes).unwrap();
    let v = NodeColoringValues::cum_sums(&g).values().clone();
    assert_eq!(v[index_of(&g, "b")], 20);
    assert_eq!(v[index_of(&g, "a")], 40);
}

#[test]
fn diamond_path_counts() {
    let g = Graph::new(DIAMOND, NO_SIZES).unwrap();
    let counts = NodeColoringValues::rev_dep_counts(&g);
    let v = counts.values();
    assert_eq!(v[index_of(&g, "a")], 1);
    assert_eq!(v[index_of(&g, "b")], 1);
    assert_eq!(v[index_of(&g, "c")], 1);
    assert_eq!(v[index_of(&g, "d")], 2);
}

#[test]
fn diamond_dep_counts_count_relations() {
    let g = Graph::new(DIAMOND, NO_SIZES).unwrap();
    let v = NodeColoringValues::dep_counts(&g).values().clone();
    assert_eq!(v[index_of(&g, "d")], 0);
    assert_eq!(v[index_of(&g, "b")], 1);
    assert_eq!(v[index_of(&g, "a")], 4);
}

#[test]
fn removal_keeps_the_rest_reachable() {
    let mut g = Graph::new(DIAMOND, NO_SIZES).unwrap();
    let b = index_of(&g, "b");
    g.remove_indices(&[b]);
    assert_eq!(all_shorts(&g), vec!["a", "c", "d"]);
    assert_eq!(shorts(&g, &g.dfs()), vec!["a", "c", "d"]);
}

#[test]
fn removal_strands_and_prunes_descendants() {
    let text = "0root v0.1.0\n1a v1.0.0\n2b v1.0.0\n3c v1.0.0\n";
    let mut g = Graph::new(text, NO_SIZES).unwrap();
    let a = index_of(&g, "a");
    g.remove_indices(&[a]);
    assert_eq!(all_shorts(&g), vec!["root"]);
}

#[test]
fn pruning_twice_changes_nothing() {
    let mut g = Graph::new(DIAMOND, NO_SIZES).unwrap();
    let c = index_of(&g, "c");
    g.remove_indices(&[c]);
    let once = all_shorts(&g);
    g.remove_indices(&[]);
    assert_eq!(all_shorts(&g), once);
}

#[test]
fn reroot_visits_what_the_new_root_reaches() {
    let mut g = Graph::new(DIAMOND, NO_SIZES).unwrap();
    g.add_std();
    let b = index_of(&g, "b");
    g.change_root(b);
    assert_eq!(g.root(), b);
    assert_eq!(shorts(&g, &g.dfs()), vec!["b", "d"]);
    assert_eq!(shorts(&g, &g.bfs()), vec!["b", "d"]);
    assert_eq!(all_shorts(&g), vec!["b", "d", "std"]);
    assert!(g.std_node().is_some());
}

#[test]
fn topological_order_puts_dependents_first() {
    let g = Graph::new(DIAMOND, NO_SIZES).unwrap();
    let order = g.topo();
    assert_eq!(order.len(), 4);
    let pos = |s: &str| order.iter().position(|i| *i == index_of(&g, s)).unwrap();
    assert!(pos("a") < pos("b"));
    assert!(pos("a") < pos("c"));
    assert!(pos("b") < pos("d"));
    assert!(pos("c") < pos("d"));
}

#[test]
fn names_are_underscored() {
    let g = Graph::new("0my-crate v1.2.3 (/path/to)\n", NO_SIZES).unwrap();
    let w = g.node_weight(g.root()).unwrap();
    assert_eq!(w.short(), "my_crate");
    assert_eq!(w.extra(), "v1.2.3 (/path/to)");
    assert_eq!(w.full(), "my_crate v1.2.3 (/path/to)");
}

#[test]
fn sizes_are_shared_between_versions() {
    let text = "0root v0.1.0\n1x v1.0.0\n1x v2.0.0\n";
    let sizes = r#"{"crates": [{"name": "x", "size": 100}, {"name": "root", "size": 7}]}"#;
    let g = Graph::new(text, sizes).unwrap();
    let xs: Vec<usize> = g
        .node_indices()
        .into_iter()
        .filter(|i| g.node_weight(*i).unwrap().short() == "x")
        .collect();
    assert_eq!(xs.len(), 2);
    assert_eq!(g.size(xs[0]), Some(50));
    assert_eq!(g.size(xs[1]), Some(50));
    assert_eq!(g.size(g.root()), Some(7));
}

#[test]
fn missing_size_is_none() {
    let g = Graph::new(CHAIN, NO_SIZES).unwrap();
    assert_eq!(g.size(g.root()), None);
}

#[test]
fn size_report_later_entry_wins() {
    let t = get_size_map(r#"{"crates": [{"name": "x", "size": 1}, {"name": "y", "size": 2}, {"name": "x", "size": 3}]}"#).unwrap();
    assert_eq!(t, vec![("x".to_string(), 3), ("y".to_string(), 2), ("x".to_string(), 1)]);
}

#[test]
fn bad_size_report_is_rejected() {
    assert_eq!(get_size_map("not json"), None);
    assert_eq!(get_size_map(r#"{"crates": [{"name": "x"}]}"#), None);
    assert!(matches!(Graph::new(CHAIN, "{}"), Err(GraphError::Sizes)));
}

#[test]
fn empty_listing_has_no_root() {
    assert!(matches!(get_dep_graph(""), Err(TreeError::NoSingleRoot)));
    assert!(matches!(get_dep_graph("0a v1.0.0\n\n0b v1.0.0\n"), Err(TreeError::NoSingleRoot)));
    assert!(matches!(Graph::new("", NO_SIZES), Err(GraphError::Tree(TreeError::NoSingleRoot))));
}

#[test]
fn malformed_lines_are_reported() {
    assert!(matches!(get_dep_graph("root v0.1.0\n"), Err(TreeError::Malformed(0))));
    assert!(matches!(get_dep_graph("0root v0.1.0\n1nospace\n"), Err(TreeError::Malformed(1))));
    assert!(matches!(get_dep_graph("0root v0.1.0\n1a feature \"\n"), Err(TreeError::Malformed(1))));
}

#[test]
fn unmatched_feature_reference_is_malformed() {
    let text = "0a v1.0.0\n1b feature \"x\" (*)\n";
    assert!(matches!(get_dep_graph(text), Err(TreeError::Malformed(1))));
}

#[test]
fn reentering_an_ancestor_is_a_cycle() {
    let text = "0a v1.0.0\n1b v1.0.0\n2a v1.0.0\n";
    assert!(matches!(get_dep_graph(text), Err(TreeError::Cyclic)));
}

#[test]
fn feature_lines_attach_features() {
    let text = "0a v1.0.0\n1b feature \"default\"\n2b v1.0.0\n3b feature \"std\"\n4b v1.0.0\n";
    let g = get_dep_graph(text).unwrap();
    assert_eq!(all_shorts(&g), vec!["a", "b"]);
    let b = index_of(&g, "b");
    let feats = g.node_weight(b).unwrap().features();
    let names: Vec<&str> = feats.iter().map(|(k, _)| k.as_str()).collect();
    assert_eq!(names, vec!["default", "std"]);
    assert!(feats[0].1.is_empty());
    assert!(feats[1].1.is_empty());
}

#[test]
fn repeated_feature_refers_back() {
    let text = "0a v1.0.0\n1b feature \"default\"\n2b v1.0.0\n1c v1.0.0\n2b feature \"default\" (*)\n";
    let g = get_dep_graph(text).unwrap();
    let b = index_of(&g, "b");
    let c = index_of(&g, "c");
    assert_eq!(g.children(c), vec![b]);
}

#[test]
fn lines_split_like_str_lines() {
    let l = split_lines(&chars_of("a\r\nb\n\nc"));
    let back: Vec<String> = l.iter().map(|v| v.iter().collect()).collect();
    assert_eq!(back, vec!["a", "b", "", "c"]);
    assert!(split_lines(&chars_of("")).is_empty());
    assert_eq!(split_lines(&chars_of("x\n")).len(), 1);
}

#[test]
fn line_reader_reads_depth_and_marks() {
    let info = read_line(&chars_of("12serde feature \"std\" (*)")).unwrap();
    assert_eq!(info.depth, 12);
    assert!(info.repeats);
    assert_eq!(info.feat.unwrap().iter().collect::<String>(), "std");
    assert!(read_line(&chars_of("99999999999999999999999a v1")).is_none());
    assert!(parse_lines(&vec![]).is_err());
}

#[test]
fn schemes_parse_by_name() {
    assert_eq!(parse_scheme("none"), Ok(None));
    assert_eq!(parse_scheme("cum-sum"), Ok(Some(NodeColoringScheme::CumSum)));
    assert_eq!(parse_scheme("dep-count"), Ok(Some(NodeColoringScheme::DepCount)));
    assert_eq!(parse_scheme("rev-dep-count"), Ok(Some(NodeColoringScheme::RevDepCount)));
    assert!(parse_scheme("other").is_err());
    assert_eq!(default_opt_scheme(), Some(NodeColoringScheme::CumSum));
    assert_eq!(NodeColoringScheme::RevDepCount.name(), "reverse dependency count");
    assert_eq!(NodeColoringScheme::CumSum.name(), "cumulative sum");
}

#[test]
fn highlight_parses_by_name() {
    assert_eq!(parse_highlight("dep"), Ok(true));
    assert_eq!(parse_highlight("rev-dep"), Ok(false));
    assert_eq!(parse_highlight("up"), Err("invalid highlight value"));
}

#[test]
fn highlight_groups_follow_reachability() {
    let g = Graph::new(DIAMOND, NO_SIZES).unwrap();
    let down = node_classes(&g, true);
    let up = node_classes(&g, false);
    let set = |v: &Vec<usize>| shorts(&g, v);
    assert_eq!(set(&down[index_of(&g, "d")]), vec!["a", "b", "c", "d"]);
    assert_eq!(set(&down[index_of(&g, "b")]), vec!["a", "b"]);
    assert_eq!(set(&up[index_of(&g, "a")]), vec!["a", "b", "c", "d"]);
    assert_eq!(set(&up[index_of(&g, "c")]), vec!["c", "d"]);
    assert_eq!(set(&up[index_of(&g, "d")]), vec!["d"]);
}

#[test]
fn edge_features_record_enabling_feature() {
    let text = "0a v1.0.0\n1a feature \"i\"\n2a v1.0.0\n2b feature \"j\"\n3b v1.0.0\n";
    let g = get_dep_graph(text).unwrap();
    let a = index_of(&g, "a");
    let b = index_of(&g, "b");
    let e = g.edge_weight(a, b).unwrap();
    assert_eq!(e.features().clone(), vec![("i".to_string(), vec!["j".to_string()])]);
    assert!(g.edge_weight(b, a).is_none());
    let names: Vec<&str> = g.node_weight(b).unwrap().features().iter().map(|(k, _)| k.as_str()).collect();
    assert_eq!(names, vec!["j"]);
}

#[test]
fn selection_by_prefix() {
    let g = Graph::new(DIAMOND, NO_SIZES).unwrap();
    let b = index_of(&g, "b");
    assert_eq!(g.select_node("b v"), Ok(b));
    assert_eq!(g.select_node("zz"), Err(SelectorError::NotFound));
    match g.select_node("") {
        Err(SelectorError::Ambiguous(all)) => assert_eq!(all.len(), 4),
        other => panic!("unexpected {other:?}"),
    }
    assert_eq!(g.matched_node_indices("c v1"), vec![index_of(&g, "c")]);
}

#[test]
fn feature_names_are_kept_in_order() {
    let text = "0a v1.0.0\n1b feature \"std\"\n2b v1.0.0\n1b feature \"alloc\"\n2b v1.0.0\n1b feature \"default\"\n2b v1.0.0\n";
    let g = get_dep_graph(text).unwrap();
    let b = index_of(&g, "b");
    let names: Vec<&str> = g.node_weight(b).unwrap().features().iter().map(|(k, _)| k.as_str()).collect();
    assert_eq!(names, vec!["alloc", "default", "std"]);
}

#[test]
fn nodes_follow_first_occurrence() {
    let g = get_dep_graph(CHAIN).unwrap();
    assert_eq!(g.node_indices(), vec![0, 1, 2]);
    assert_eq!(g.root(), 0);
    assert_eq!(g.node_weight(0).unwrap().full(), "root v0.1.0");
    assert_eq!(g.node_weight(1).unwrap().full(), "a v1.0.0");
    assert_eq!(g.node_weight(2).unwrap().full(), "b v2.0.0");
    assert!(g.edge_weight(0, 1).unwrap().features().is_empty());
    assert!(g.edge_weight(1, 2).unwrap().features().is_empty());
    assert!(g.edge_weight(0, 2).unwrap().features().is_empty());
    assert!(g.edge_weight(2, 0).is_none());
    assert!(g.edge_weight(1, 0).is_none());
}

#[test]
fn missing_depth_names_its_line() {
    assert!(matches!(get_dep_graph("0a v1\nb v1"), Err(TreeError::Malformed(1))));
    assert!(matches!(get_dep_graph("0a v1\n1b feature \"std\" (*)"), Err(TreeError::Malformed(1))));
}

#[test]
fn back_reference_adds_no_node() {
    let with_ref = "0a v1.0.0\n1b feature \"default\"\n2b v1.0.0\n1c v1.0.0\n2b feature \"default\" (*)\n";
    let without = "0a v1.0.0\n1b feature \"default\"\n2b v1.0.0\n1c v1.0.0\n";
    assert_eq!(get_dep_graph(with_ref).unwrap().node_count(), get_dep_graph(without).unwrap().node_count());
}

#[test]
fn small_dependencies_are_removed() {
    let mut g = Graph::new(DIAMOND, DIAMOND_SIZES).unwrap();
    let sums = NodeColoringValues::cum_sums(&g);
    g.remove_small_deps(sums.values(), 45);
    assert_eq!(all_shorts(&g), vec!["a", "c"]);
}

#[test]
fn pruning_leaves_reachable_nodes() {
    let mut g = Graph::new(DIAMOND, NO_SIZES).unwrap();
    g.remove_unreachable();
    g.remove_unreachable();
    assert_eq!(all_shorts(&g), vec!["a", "b", "c", "d"]);
}

#[test]
fn std_is_exempt_from_removal() {
    let mut g = Graph::new(DIAMOND, NO_SIZES).unwrap();
    g.add_std();
    let s = g.std_node().unwrap();
    assert_eq!(s, 4);
    let b = index_of(&g, "b");
    g.remove_indices(&[s, b]);
    assert_eq!(all_shorts(&g), vec!["a", "c", "d", "std"]);
    assert_eq!(g.std_node(), Some(s));
}

#[test]
fn edge_features_read_through_graph_new() {
    let text = "0app v0.1.0\n1x feature \"default\"\n2x v1.0.0\n2y feature \"std\"\n3y v1.0.0";
    let g = Graph::new(text, NO_SIZES).unwrap();
    assert_eq!(g.node_weight(1).unwrap().short(), "x");
    assert_eq!(g.node_weight(2).unwrap().short(), "y");
    assert_eq!(g.edge_weight(1, 2).unwrap().features().clone(), vec![("default".to_string(), vec!["std".to_string()])]);
    assert!(g.edge_weight(0, 1).unwrap().features().is_empty());
}

#[test]
fn edge_features_survive_pruning() {
    let text = "0app v0.1.0\n1x feature \"default\"\n2x v1.0.0\n2y feature \"std\"\n3y v1.0.0\n1z v1.0.0";
    let mut g = Graph::new(text, NO_SIZES).unwrap();
    let z = index_of(&g, "z");
    g.remove_indices(&[z]);
    g.change_root(1);
    assert_eq!(g.edge_weight(1, 2).unwrap().features().clone(), vec![("default".to_string(), vec!["std".to_string()])]);
}

#[test]
fn exclusion_by_prefix() {
    let mut g = Graph::new(DIAMOND, NO_SIZES).unwrap();
    g.remove_excluded_deps(&vec!["b ".to_string(), "a".to_string(), "zz".to_string()]);
    assert_eq!(all_shorts(&g), vec!["a", "c", "d"]);
}

#[test]
fn size_by_short_name() {
    let g = Graph::new(DIAMOND, DIAMOND_SIZES).unwrap();
    assert_eq!(g.size_of_name("c"), Some(30));
    assert_eq!(g.size_of_name("e"), None);
}
