use buffrs_resolver::error::DependencyError;
use buffrs_resolver::graph::{DependencyGraph, DependencyNode, DependencySource};
use buffrs_resolver::package::{NameMap, NetworkMode, PackageName};
use buffrs_resolver::version::VersionReq;

fn name(text: &str) -> PackageName {
    PackageName::unchecked(text)
}

fn graph(packages: &[(&str, &[&str])]) -> DependencyGraph {
    let mut nodes = NameMap::new();
    for (package, dependencies) in packages {
        nodes.insert(
            name(package),
            DependencyNode {
                name: name(package),
                package_type: None,
                source: DependencySource::Local { path: vec![package.to_string()] },
                dependencies: dependencies.iter().map(|d| name(d)).collect(),
                version: VersionReq::star(),
                resolved_version: None,
            },
        );
    }
    DependencyGraph { nodes, network_mode: NetworkMode::Online }
}

fn sorted(g: &DependencyGraph) -> Vec<String> {
    g.topological_sort().unwrap().iter().map(|n| n.as_str().to_string()).collect()
}

fn stuck(g: &DependencyGraph) -> Vec<String> {
    match g.topological_sort() {
        Err(DependencyError::CircularDependency(names)) => {
            let mut all: Vec<String> = names.split(" -> ").map(|s| s.to_string()).collect();
            all.sort();
            all
        }
        other => panic!("{:?}", other),
    }
}

#[test]
fn empty_graph_is_sorted() {
    assert!(sorted(&graph(&[])).is_empty());
    assert!(graph(&[]).ordered_dependencies().unwrap().is_empty());
}

#[test]
fn chain_is_sorted_from_its_end() {
    let g = graph(&[("a", &["b"]), ("b", &["c"]), ("c", &[])]);
    assert_eq!(sorted(&g), vec!["c", "b", "a"]);
}

#[test]
fn diamond_is_sorted() {
    let g = graph(&[("a", &["b", "c"]), ("b", &["d"]), ("c", &["d"]), ("d", &[])]);
    let order = sorted(&g);
    assert_eq!(order.len(), 4);
    assert_eq!(order[0], "d");
    assert_eq!(order[3], "a");
}

#[test]
fn repeated_dependency_is_no_cycle() {
    let g = graph(&[("a", &["b", "b"]), ("b", &[])]);
    assert_eq!(sorted(&g), vec!["b", "a"]);
    assert_eq!(g.dependants_count_of(&name("b")), 1);
}

#[test]
fn cycle_and_what_leads_to_it_is_reported() {
    let g = graph(&[("a", &["b"]), ("b", &["c"]), ("c", &["b"]), ("d", &[])]);
    assert_eq!(stuck(&g), vec!["a", "b", "c"]);
    assert!(g.ordered_dependencies().is_err());
}

#[test]
fn self_dependency_is_a_cycle() {
    assert_eq!(stuck(&graph(&[("a", &["a"]), ("b", &[])])), vec!["a"]);
}

#[test]
fn missing_package_is_reported_like_a_cycle() {
    assert_eq!(stuck(&graph(&[("a", &["gone"]), ("b", &[])])), vec!["a"]);
}

#[test]
fn details_hold_the_nodes_in_order() {
    let g = graph(&[("a", &["b"]), ("b", &[])]);
    let details = g.ordered_dependencies().unwrap();
    assert_eq!(details.len(), 2);
    assert_eq!(details[0].name.as_str(), "b");
    assert_eq!(details[0].node.name.as_str(), "b");
    assert_eq!(details[1].name.as_str(), "a");
    assert_eq!(details[1].node.dependencies[0].as_str(), "b");
}

#[test]
fn dependants_are_counted() {
    let g = graph(&[("a", &["c"]), ("b", &["c", "a"]), ("c", &[])]);
    assert_eq!(g.dependants_count_of(&name("c")), 2);
    assert_eq!(g.dependants_count_of(&name("a")), 1);
    assert_eq!(g.dependants_count_of(&name("b")), 0);
    assert_eq!(g.dependants_count_of(&name("gone")), 0);
}

#[test]
fn names_are_kept_once() {
    let mut map: NameMap<VersionReq> = NameMap::new();
    map.insert(name("a"), VersionReq::parse("^1.0.0").unwrap());
    map.insert(name("b"), VersionReq::star());
    map.insert(name("a"), VersionReq::parse("^2.0.0").unwrap());
    assert_eq!(map.len(), 2);
    assert_eq!(map.get(&name("a")).unwrap().to_text(), "^2.0.0");
    assert_eq!(map.remove(&name("a")).unwrap().to_text(), "^2.0.0");
    assert!(map.remove(&name("a")).is_none());
    assert!(!map.contains(&name("a")));
    assert!(map.contains(&name("b")));
    assert_eq!(map.name_at(0).as_str(), "b");
    assert_eq!(map.value_at(0).to_text(), "*");
}
