use depth::dependency_graph::DependencyGraph;
use depth::package::Package;

fn pkg(name: &str, url: &str, deps: &[(&str, &str)]) -> Package {
    Package::new(
        name.to_string(),
        url.to_string(),
        deps.iter().map(|d| (d.0.to_string(), d.1.to_string())).collect(),
        false,
    )
}

#[test]
fn single_package_prints_exactly_one_line() {
    let mut graph = DependencyGraph::new();
    let solo = pkg("solo", "https://solo.example", &[]);
    graph.add_package_to_graph(&solo);
    let lines = graph.print_dependencies_at_level(&solo, 0, 2);
    assert_eq!(lines, vec![
        "\x1b[32m ├── solo - (https://solo.example)\x1b[0m".to_string(),
    ]);
}

#[test]
fn depth_zero_against_max_depth_zero_prints_nothing() {
    let mut graph = DependencyGraph::new();
    let solo = pkg("solo", "", &[]);
    graph.add_package_to_graph(&solo);
    let lines = graph.print_dependencies_at_level(&solo, 0, 0);
    assert!(lines.is_empty());
}

#[test]
fn max_depth_one_prints_only_the_root_line() {
    // the root has dependency tuple nodes hanging below it, but one level
    // of budget shows the root alone
    let mut graph = DependencyGraph::new();
    let root = pkg("app1", "a.example", &[("x", "1.0")]);
    graph.add_package_to_graph(&root);
    let lines = graph.print_dependencies_at_level(&root, 0, 1);
    assert_eq!(lines, vec![
        "\x1b[32m ├── app1 - (a.example)\x1b[0m".to_string(),
    ]);
}

#[test]
fn package_missing_from_graph_prints_nothing() {
    let mut graph = DependencyGraph::new();
    graph.add_package_to_graph(&pkg("present", "", &[]));
    let absent = pkg("absent", "", &[]);
    let lines = graph.print_dependencies_at_level(&absent, 0, 3);
    assert!(lines.is_empty());
}

#[test]
fn line_indentation_and_colors_follow_depth() {
    // a chain a -> b built the way the traversal builds it
    let mut graph = DependencyGraph::new();
    let a = pkg("a", "a.example", &[("b", "*")]);
    let b = pkg("b", "b.example", &[]);
    let ia = graph.add_package_to_graph(&a);
    let ib = graph.add_package_to_graph(&b);
    graph.add_dependency_edge(ia, ib);
    let lines = graph.print_dependencies_at_level(&a, 0, 3);
    assert_eq!(lines, vec![
        "\x1b[32m ├── a - (a.example)\x1b[0m".to_string(),
        "   \x1b[37m ├── b - (*)\x1b[0m".to_string(),
        "   \x1b[37m ├── b - (b.example)\x1b[0m".to_string(),
    ]);
}

#[test]
fn diamond_tree_matches_golden_output() {
    // demo depends on left and right; left depends on right, but was
    // never expanded, so the graph has no edge from left to right
    let mut graph = DependencyGraph::new();
    let demo = pkg("demo", "d.example", &[("left", "*"), ("right", "*")]);
    let left = pkg("left", "l.example", &[("right", "*")]);
    let right = pkg("right", "r.example", &[]);
    let idemo = graph.add_package_to_graph(&demo);
    let ileft = graph.add_package_to_graph(&left);
    graph.add_dependency_edge(idemo, ileft);
    let iright = graph.add_package_to_graph(&right);
    graph.add_dependency_edge(idemo, iright);

    let lines = graph.print_dependencies_at_level(&demo, 0, 3);
    assert_eq!(lines, vec![
        "\x1b[32m ├── demo - (d.example)\x1b[0m".to_string(),
        "   \x1b[37m ├── left - (*)\x1b[0m".to_string(),
        "   \x1b[37m ├── right - (*)\x1b[0m".to_string(),
        "   \x1b[37m ├── left - (l.example)\x1b[0m".to_string(),
        "   \x1b[37m ├── right - (r.example)\x1b[0m".to_string(),
    ]);
    // the (right, r.example) node is rendered exactly once, not repeated
    // under both parents
    assert_eq!(lines.iter().filter(|l| l.contains("(r.example)")).count(), 1);
}

#[test]
fn repeated_name_is_suppressed_at_shallow_max_depth() {
    // at max_depth <= 2 a package name is printed at most once
    let mut graph = DependencyGraph::new();
    let a = pkg("a", "a.example", &[]);
    let twin = pkg("a", "other.example", &[]);
    let ia = graph.add_package_to_graph(&a);
    let it = graph.add_package_to_graph(&twin);
    graph.add_dependency_edge(ia, it);
    let lines = graph.print_dependencies_at_level(&a, 0, 2);
    assert_eq!(lines, vec![
        "\x1b[32m ├── a - (a.example)\x1b[0m".to_string(),
    ]);
}

#[test]
fn duplicate_package_insert_reuses_the_node() {
    let mut graph = DependencyGraph::new();
    let solo = pkg("solo", "s.example", &[]);
    let first = graph.add_package_to_graph(&solo);
    let second = graph.add_package_to_graph(&solo);
    assert_eq!(first, second);
    let lines = graph.print_dependencies_at_level(&solo, 0, 5);
    assert_eq!(lines.len(), 1);
}

#[test]
fn dot_output_names_nodes_and_edge_label() {
    let mut graph = DependencyGraph::new();
    let a = pkg("a", "a.example", &[("b", "*")]);
    graph.add_package_to_graph(&a);
    let dot = graph.to_dot();
    assert!(dot.contains("a.example"));
    assert!(dot.contains("depends"));
}
