use depth::cli::{requested_depth, Cli};
use depth::package::{filter_dependencies, parse_dependencies, DeclaredDep, Package};

fn dep(name: &str, req: &str, optional: bool) -> DeclaredDep {
    DeclaredDep { name: name.to_string(), req: req.to_string(), optional }
}

#[test]
fn parse_dependencies_lists_the_dependency_names() {
    let manifest = "[package]\nname = \"demo\"\n\n[dependencies]\nalpha = \"1\"\nserde = { version = \"1\", features = [\"derive\"] }\n";
    let names = parse_dependencies(manifest).unwrap();
    assert_eq!(names, vec!["alpha".to_string(), "serde".to_string()]);
}

#[test]
fn parse_dependencies_without_table_is_empty() {
    let manifest = "[package]\nname = \"demo\"\n";
    let names = parse_dependencies(manifest).unwrap();
    assert!(names.is_empty());
}

#[test]
fn parse_dependencies_rejects_invalid_toml() {
    let err = parse_dependencies("= this is not toml").unwrap_err();
    assert!(!err.message.is_empty());
}

#[test]
fn filter_splits_by_the_optional_flag() {
    let deps = vec![
        dep("opt_a", "1.0", true),
        dep("req_b", "2.0", false),
        dep("opt_c", "3.0", true),
        dep("req_d", "4.0", false),
    ];
    let optional = filter_dependencies(&deps, true);
    let required = filter_dependencies(&deps, false);
    assert_eq!(optional, vec![
        ("opt_a".to_string(), "1.0".to_string()),
        ("opt_c".to_string(), "3.0".to_string()),
    ]);
    assert_eq!(required, vec![
        ("req_b".to_string(), "2.0".to_string()),
        ("req_d".to_string(), "4.0".to_string()),
    ]);
    assert_eq!(optional.len() + required.len(), deps.len());
    for entry in &optional {
        assert!(!required.contains(entry));
    }
}

#[test]
fn filter_of_empty_list_is_empty() {
    let deps: Vec<DeclaredDep> = Vec::new();
    assert!(filter_dependencies(&deps, true).is_empty());
    assert!(filter_dependencies(&deps, false).is_empty());
}

#[test]
fn package_new_keeps_its_parts() {
    let p = Package::new(
        "name".to_string(),
        "url".to_string(),
        vec![("d".to_string(), "1".to_string())],
        true,
    );
    assert_eq!(p.name, "name");
    assert_eq!(p.url, "url");
    assert_eq!(p.dependencies, vec![("d".to_string(), "1".to_string())]);
    assert!(p.internal);
}

#[test]
fn cli_levels_are_incremented_before_the_fetch() {
    let cli = Cli { crate_: "demo".to_string(), levels: 1, optional: false };
    assert_eq!(requested_depth(cli.levels), 2);
    assert_eq!(requested_depth(0), 1);
    assert!(!cli.optional);
    assert_eq!(cli.crate_, "demo");
}
