use depth::fetcher::{Action, CrateMeta, Fetcher};
use depth::package::DeclaredDep;

fn dep(name: &str, req: &str, optional: bool) -> DeclaredDep {
    DeclaredDep { name: name.to_string(), req: req.to_string(), optional }
}

/// A mocked registry: (name, homepage, declared dependencies). Drives the
/// fetcher to completion and returns the names fetched, in order.
fn drive(
    fetcher: &mut Fetcher,
    registry: &[(&str, &str, Vec<(&str, &str, bool)>)],
) -> Result<Vec<String>, String> {
    let mut fetched: Vec<String> = Vec::new();
    let mut turns = 0;
    loop {
        turns += 1;
        assert!(turns < 10_000, "traversal did not finish");
        match fetcher.next_action() {
            Action::Fetch(name) => match registry.iter().find(|e| e.0 == name) {
                Some((_, homepage, deps)) => {
                    fetched.push(name.clone());
                    let meta = CrateMeta {
                        homepage: if homepage.is_empty() {
                            None
                        } else {
                            Some(homepage.to_string())
                        },
                        dependencies: deps.iter().map(|d| dep(d.0, d.1, d.2)).collect(),
                    };
                    fetcher.provide(meta);
                }
                None => return Err(format!("package not found: {}", name)),
            },
            Action::Continue => {}
            Action::Finished => return Ok(fetched),
        }
    }
}

#[test]
fn root_without_dependencies_is_fetched_once() {
    let mut f = Fetcher::new("solo", 2, false);
    let reg = [("solo", "https://solo.example", vec![])];
    let fetched = drive(&mut f, &reg).unwrap();
    assert_eq!(fetched, vec!["solo".to_string()]);
    let (root, graph) = f.take_result();
    let root = root.unwrap();
    assert_eq!(root.name, "solo");
    assert_eq!(root.url, "https://solo.example");
    assert!(root.dependencies.is_empty());
    let lines = graph.print_dependencies_at_level(&root, 0, 2);
    assert_eq!(lines.len(), 1);
}

#[test]
fn cycle_terminates_and_each_name_is_fetched_once() {
    let mut f = Fetcher::new("a", 4, false);
    let reg = [
        ("a", "https://a.example", vec![("b", "*", false)]),
        ("b", "https://b.example", vec![("a", "*", false)]),
    ];
    let fetched = drive(&mut f, &reg).unwrap();
    assert_eq!(fetched, vec!["a".to_string(), "b".to_string()]);
    let (root, _graph) = f.take_result();
    assert_eq!(root.unwrap().name, "a");
}

#[test]
fn diamond_fetches_the_shared_package_once_with_both_edges() {
    // demo -> left, right; left -> right; depth large enough to expand left
    let mut f = Fetcher::new("demo", 4, false);
    let reg = [
        ("demo", "d.example", vec![("left", "*", false), ("right", "*", false)]),
        ("left", "l.example", vec![("right", "*", false)]),
        ("right", "r.example", vec![]),
    ];
    let fetched = drive(&mut f, &reg).unwrap();
    // one network call per unique name, in discovery order
    assert_eq!(
        fetched,
        vec!["demo".to_string(), "left".to_string(), "right".to_string()]
    );
    let (root, graph) = f.take_result();
    let root = root.unwrap();
    // the shared package is printed under one of its parents only: the
    // (right, r.example) node is rendered exactly once
    let lines = graph.print_dependencies_at_level(&root, 0, 4);
    let right_lines: Vec<&String> =
        lines.iter().filter(|l| l.contains("right - (r.example)")).collect();
    assert_eq!(right_lines.len(), 1);
}

#[test]
fn two_level_walk_matches_the_golden_output() {
    // two requested levels arrive at the fetcher as a depth budget of
    // three; right is reachable from left too, and its package node is
    // printed exactly once, under left, not again under the root
    let mut f = Fetcher::new("demo", 3, false);
    let reg = [
        ("demo", "d.example", vec![("left", "*", false), ("right", "*", false)]),
        ("left", "l.example", vec![("right", "*", false)]),
        ("right", "r.example", vec![]),
    ];
    drive(&mut f, &reg).unwrap();
    let (root, graph) = f.take_result();
    let lines = graph.print_dependencies_at_level(&root.unwrap(), 0, 3);
    assert_eq!(lines, vec![
        "\x1b[32m ├── demo - (d.example)\x1b[0m".to_string(),
        "   \x1b[37m ├── left - (*)\x1b[0m".to_string(),
        "   \x1b[37m ├── right - (*)\x1b[0m".to_string(),
        "   \x1b[37m ├── left - (l.example)\x1b[0m".to_string(),
        "      \x1b[32m ├── right - (r.example)\x1b[0m".to_string(),
    ]);
    let right_lines = lines.iter().filter(|l| l.contains("(r.example)")).count();
    assert_eq!(right_lines, 1);
}

#[test]
fn optional_and_required_traversals_are_disjoint() {
    let reg = [
        (
            "mix",
            "m.example",
            vec![
                ("opt_a", "*", true),
                ("req_b", "*", false),
                ("opt_c", "*", true),
                ("req_d", "*", false),
            ],
        ),
        ("opt_a", "", vec![]),
        ("req_b", "", vec![]),
        ("opt_c", "", vec![]),
        ("req_d", "", vec![]),
    ];

    let mut f_req = Fetcher::new("mix", 2, false);
    drive(&mut f_req, &reg).unwrap();
    let (root_req, _) = f_req.take_result();
    let req: Vec<String> =
        root_req.unwrap().dependencies.iter().map(|d| d.0.clone()).collect();

    let mut f_opt = Fetcher::new("mix", 2, true);
    drive(&mut f_opt, &reg).unwrap();
    let (root_opt, _) = f_opt.take_result();
    let opt: Vec<String> =
        root_opt.unwrap().dependencies.iter().map(|d| d.0.clone()).collect();

    assert_eq!(req, vec!["req_b".to_string(), "req_d".to_string()]);
    assert_eq!(opt, vec!["opt_a".to_string(), "opt_c".to_string()]);
    for name in &req {
        assert!(!opt.contains(name));
    }
    assert_eq!(req.len() + opt.len(), 4);
}

#[test]
fn self_dependency_terminates() {
    let mut f = Fetcher::new("selfy", 3, false);
    let reg = [("selfy", "s.example", vec![("selfy", "*", false)])];
    let fetched = drive(&mut f, &reg).unwrap();
    assert_eq!(fetched, vec!["selfy".to_string()]);
    let (root, graph) = f.take_result();
    let lines = graph.print_dependencies_at_level(&root.unwrap(), 0, 3);
    assert_eq!(lines.iter().filter(|l| l.contains("s.example")).count(), 1);
}

#[test]
fn registry_failure_aborts_with_no_tree() {
    let mut f = Fetcher::new("top", 3, false);
    // "gone" is not in the registry: the traversal aborts mid-run
    let reg = [("top", "t.example", vec![("gone", "*", false)])];
    let result = drive(&mut f, &reg);
    assert!(result.is_err());
    assert_eq!(result.unwrap_err(), "package not found: gone");
    // no partial tree was rendered: rendering only ever happens after a
    // completed traversal, and none was attempted here
}

#[test]
fn missing_homepage_defaults_to_empty_and_std_prefix_marks_internal() {
    let mut f = Fetcher::new("stdfoo", 1, false);
    let reg = [("stdfoo", "", vec![])];
    drive(&mut f, &reg).unwrap();
    let (root, _) = f.take_result();
    let root = root.unwrap();
    assert_eq!(root.url, "");
    assert!(root.internal);

    let mut g = Fetcher::new("foostd", 1, false);
    let reg2 = [("foostd", "", vec![])];
    drive(&mut g, &reg2).unwrap();
    let (root2, _) = g.take_result();
    assert!(!root2.unwrap().internal);
}

#[test]
fn depth_one_does_not_expand_dependencies() {
    // fetch with depth 1: the root's dependencies are listed but never
    // fetched
    let mut f = Fetcher::new("app1", 1, false);
    let reg = [("app1", "a.example", vec![("x", "1.0", false)])];
    let fetched = drive(&mut f, &reg).unwrap();
    assert_eq!(fetched, vec!["app1".to_string()]);
    let (root, _) = f.take_result();
    let root = root.unwrap();
    assert_eq!(root.dependencies, vec![("x".to_string(), "1.0".to_string())]);
}
