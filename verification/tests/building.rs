use buffrs_resolver::builder::resolution::Plan;
use buffrs_resolver::builder::GraphBuilder;
use buffrs_resolver::error::DependencyError;
use buffrs_resolver::graph::DependencySource;
use buffrs_resolver::lockfile::{FileRequirement, LockedPackage, Lockfile};
use buffrs_resolver::manifest::{
    Dependency, DependencyManifest, LocalDependencyManifest, PackageManifest, PackagesManifest,
    RegistryUri, RemoteDependencyManifest,
};
use buffrs_resolver::package::{NetworkMode, PackageName, PackageType};
use buffrs_resolver::version::{Version, VersionReq};

fn name(text: &str) -> PackageName {
    PackageName::unchecked(text)
}

fn registry() -> RegistryUri {
    RegistryUri { text: "http://r".to_string() }
}

fn repository() -> String {
    "repo".to_string()
}

fn remote(package: &str, req: &str) -> Dependency {
    Dependency {
        package: name(package),
        manifest: DependencyManifest::Remote(RemoteDependencyManifest {
            registry: registry(),
            repository: repository(),
            version: VersionReq::parse(req).unwrap(),
        }),
    }
}

fn local(package: &str, path: &str) -> Dependency {
    Dependency {
        package: name(package),
        manifest: DependencyManifest::Local(LocalDependencyManifest { path: path.to_string() }),
    }
}

fn lib(package: &str, dependencies: Vec<Dependency>) -> PackagesManifest {
    PackagesManifest {
        package: Some(PackageManifest { kind: PackageType::Lib, name: name(package) }),
        dependencies: Some(dependencies),
    }
}

fn builder() -> GraphBuilder {
    GraphBuilder::new(vec!["base".to_string()], None, None, NetworkMode::Online)
}

/// Resolves a remote package of a builder to a version.
fn settle(b: &mut GraphBuilder, package: &str, version: &str, dependencies: Vec<Dependency>) {
    let v = Version::parse(version).unwrap();
    assert!(b.begin_fetch(&name(package), &v));
    b.fetch_and_walk(&name(package), &registry(), &repository(), &v, &lib(package, dependencies))
        .unwrap();
}

fn next(b: &mut GraphBuilder) -> Option<String> {
    b.drive().map(|n| n.as_str().to_string())
}

#[test]
fn packages_are_taken_up_in_the_order_in_which_they_were_required() {
    let mut b = builder();
    b.add_edge(None, &remote("b", "*")).unwrap();
    b.add_edge(None, &remote("a", "*")).unwrap();
    b.add_edge(None, &remote("b", "^1.0.0")).unwrap();
    assert_eq!(next(&mut b).unwrap(), "b");
    settle(&mut b, "b", "1.0.0", vec![remote("c", "*"), remote("a", "*")]);
    assert_eq!(next(&mut b).unwrap(), "a");
    settle(&mut b, "a", "1.0.0", vec![]);
    assert_eq!(next(&mut b).unwrap(), "c");
    settle(&mut b, "c", "1.0.0", vec![]);
    assert!(next(&mut b).is_none());
}

#[test]
fn visit_is_needed_until_the_version_fits() {
    let mut b = builder();
    assert!(b.needs_visit(&name("a")));
    b.add_edge(None, &remote("a", "^1.0.0")).unwrap();
    assert!(b.needs_visit(&name("a")));
    next(&mut b);
    settle(&mut b, "a", "1.5.0", vec![]);
    assert!(!b.needs_visit(&name("a")));
    b.add_edge(None, &remote("a", ">=1.0.0")).unwrap();
    assert!(!b.needs_visit(&name("a")));
    assert!(next(&mut b).is_none());
    b.add_edge(None, &remote("a", "<1.5.0")).unwrap();
    assert!(b.needs_visit(&name("a")));
    assert_eq!(next(&mut b).unwrap(), "a");
}

#[test]
fn local_package_is_visited_once() {
    let mut b = builder();
    b.add_edge(None, &local("a", "x")).unwrap();
    assert_eq!(next(&mut b).unwrap(), "a");
    match b.resolve_one(&name("a")) {
        Plan::ReadManifest { path } => assert_eq!(path, vec!["base".to_string(), "x".to_string()]),
        other => panic!("{:?}", other),
    }
    let path = vec!["base".to_string(), "x".to_string()];
    b.resolve_local(&name("a"), &path, &lib("a", vec![local("a", "y")])).unwrap();
    assert!(!b.needs_visit(&name("a")));
    assert!(next(&mut b).is_none());
}

#[test]
fn directory_is_restored_after_a_conflict() {
    let mut b = builder();
    b.add_edge(None, &local("a", "x")).unwrap();
    b.add_edge(None, &remote("r", "*")).unwrap();
    next(&mut b);
    let path = vec!["base".to_string(), "x".to_string()];
    let e = b
        .resolve_local(&name("a"), &path, &lib("a", vec![local("n", "m"), local("r", "z")]))
        .err()
        .unwrap();
    assert!(matches!(e, DependencyError::LocalRemoteConflict { .. }));
    b.add_edge(None, &local("later", "l")).unwrap();
    match b.resolve_one(&name("later")) {
        Plan::ReadManifest { path } => assert_eq!(path, vec!["base".to_string(), "l".to_string()]),
        other => panic!("{:?}", other),
    }
    // The dependency before the one that conflicts is recorded.
    match b.resolve_one(&name("n")) {
        Plan::ReadManifest { path } => {
            assert_eq!(path, vec!["base".to_string(), "x".to_string(), "m".to_string()])
        }
        other => panic!("{:?}", other),
    }
}

#[test]
fn conflicting_edge_is_not_recorded() {
    let mut b = builder();
    b.add_edge(None, &remote("a", "^1.0.0")).unwrap();
    let e = b.add_edge(None, &local("a", "x")).err().unwrap();
    match e {
        DependencyError::LocalRemoteConflict { package } => assert_eq!(package.as_str(), "a"),
        other => panic!("{:?}", other),
    }
    let v = b.select_version(&name("a"), vec![Version::new(1, 0, 0)]).unwrap();
    assert_eq!(v.to_text(), "1.0.0");
}

#[test]
fn unchanged_pick_leaves_everything_as_it_is() {
    let mut b = builder();
    b.add_edge(None, &remote("a", "*")).unwrap();
    next(&mut b);
    settle(&mut b, "a", "1.0.0", vec![remote("c", "*")]);
    assert!(!b.begin_fetch(&name("a"), &Version::new(1, 0, 0)));
    assert_eq!(next(&mut b).unwrap(), "c");
    assert_eq!(b.into_graph().nodes.len(), 1);
}

#[test]
fn changed_pick_takes_back_what_it_contributed() {
    let mut b = builder();
    b.add_edge(None, &remote("a", "*")).unwrap();
    b.add_edge(None, &remote("s", "*")).unwrap();
    next(&mut b);
    settle(&mut b, "a", "2.0.0", vec![remote("c", "*"), remote("s", "<2.0.0")]);
    next(&mut b);
    settle(&mut b, "s", "1.0.0", vec![]);
    next(&mut b);
    settle(&mut b, "c", "1.0.0", vec![remote("d", "*")]);
    next(&mut b);
    settle(&mut b, "d", "1.0.0", vec![]);
    assert!(b.begin_fetch(&name("a"), &Version::new(1, 0, 0)));
    // The requirement of the old version on s is gone.
    let v = b.select_version(&name("s"), vec![Version::new(1, 0, 0), Version::new(3, 0, 0)]).unwrap();
    assert_eq!(v.to_text(), "3.0.0");
    let graph = b.into_graph();
    assert_eq!(graph.nodes.len(), 2);
    assert!(graph.nodes.contains(&name("a")));
    assert!(graph.nodes.contains(&name("s")));
    assert!(!graph.nodes.contains(&name("c")));
    assert!(!graph.nodes.contains(&name("d")));
}

#[test]
fn package_required_by_what_it_pulled_in_stays() {
    let mut b = builder();
    b.add_edge(None, &remote("p", "*")).unwrap();
    next(&mut b);
    settle(&mut b, "p", "2.0.0", vec![remote("x", "*")]);
    next(&mut b);
    settle(&mut b, "x", "1.0.0", vec![remote("p", "<2.0.0")]);
    assert_eq!(next(&mut b).unwrap(), "p");
    b.retract_contributions_from(&name("p"));
    // The requirements on p itself all stay, also that of x, which is gone.
    let v = b.select_version(&name("p"), vec![Version::new(2, 0, 0), Version::new(1, 0, 0)]).unwrap();
    assert_eq!(v.to_text(), "1.0.0");
    assert!(!b.into_graph().nodes.contains(&name("x")));
}

#[test]
fn dropped_package_in_the_worklist_is_skipped() {
    let mut b = builder();
    b.add_edge(None, &remote("a", "*")).unwrap();
    next(&mut b);
    settle(&mut b, "a", "2.0.0", vec![remote("c", "*")]);
    b.retract_contributions_from(&name("a"));
    assert!(next(&mut b).is_none());
}

#[test]
fn lib_edges_on_an_api_package_are_refused() {
    let mut b = GraphBuilder::new(
        vec![],
        Some(PackageType::Api),
        None,
        NetworkMode::Online,
    );
    b.add_edge(None, &remote("l", "*")).unwrap();
    b.add_edge(None, &remote("x", "*")).unwrap();
    b.add_edge(Some(name("nowhere")), &remote("x", "*")).unwrap();
    assert!(b.ensure_lib_not_depends_on_api(&name("x"), Some(PackageType::Api)).is_ok());
    next(&mut b);
    settle(&mut b, "l", "1.0.0", vec![remote("x", "*")]);
    assert!(b.ensure_lib_not_depends_on_api(&name("x"), Some(PackageType::Lib)).is_ok());
    assert!(b.ensure_lib_not_depends_on_api(&name("x"), None).is_ok());
    assert!(b.ensure_lib_not_depends_on_api(&name("y"), Some(PackageType::Api)).is_ok());
    match b.ensure_lib_not_depends_on_api(&name("x"), Some(PackageType::Api)) {
        Err(DependencyError::InvalidPackageTypeDependency { parent, dependency }) => {
            assert_eq!(parent.as_str(), "l");
            assert_eq!(dependency.as_str(), "x");
        }
        other => panic!("{:?}", other),
    }
}

fn pin(package: &str, version: &str, url: &str) -> LockedPackage {
    LockedPackage {
        name: name(package),
        version: Version::parse(version).unwrap(),
        file: FileRequirement { url: url.to_string(), digest: format!("d-{}", version) },
    }
}

#[test]
fn highest_pin_that_fits_is_found() {
    let lockfile = Lockfile {
        packages: vec![
            pin("a", "1.0.0", "http://r/1"),
            pin("b", "1.4.0", "http://r/2"),
            pin("a", "1.2.0", "http://r/3"),
            pin("a", "1.2.0", "http://r/4"),
            pin("a", "2.0.0", "http://r/5"),
        ],
    };
    let req = |texts: &[&str]| -> Vec<VersionReq> {
        texts.iter().map(|t| VersionReq::parse(t).unwrap()).collect()
    };
    let (v, file) = lockfile.find_satisfying_all(&name("a"), &req(&["^1.0.0"])).unwrap();
    assert_eq!(v.to_text(), "1.2.0");
    assert_eq!(file.url, "http://r/3");
    let (v, _) = lockfile.find_satisfying_all(&name("a"), &req(&[])).unwrap();
    assert_eq!(v.to_text(), "2.0.0");
    assert!(lockfile.find_satisfying_all(&name("a"), &req(&["^1.0.0", ">=1.3.0"])).is_none());
    assert!(lockfile.find_satisfying_all(&name("c"), &req(&["*"])).is_none());
}

#[test]
fn plan_goes_by_pin_and_registry() {
    let lockfile = Lockfile {
        packages: vec![pin("a", "1.0.0", "http://r/a"), pin("b", "1.0.0", "http://q/b")],
    };
    let mut b = GraphBuilder::new(vec![], None, Some(lockfile), NetworkMode::Online);
    b.add_edge(None, &remote("a", "^1.0.0")).unwrap();
    b.add_edge(None, &remote("b", "^1.0.0")).unwrap();
    b.add_edge(None, &remote("c", "^1.0.0")).unwrap();
    match b.resolve_one(&name("a")) {
        Plan::Fetch { registry, repository, version, file } => {
            assert_eq!(registry.text, "http://r");
            assert_eq!(repository, "repo");
            assert_eq!(version.to_text(), "1.0.0");
            assert_eq!(file.digest, "d-1.0.0");
        }
        other => panic!("{:?}", other),
    }
    assert!(matches!(b.resolve_one(&name("b")), Plan::ListVersions { .. }));
    assert!(matches!(b.resolve_one(&name("c")), Plan::ListVersions { .. }));
    b.add_edge(None, &remote("a", ">1.0.0")).unwrap();
    assert!(matches!(b.resolve_one(&name("a")), Plan::ListVersions { .. }));
}

#[test]
fn download_pins_the_chosen_version() {
    let mut b = builder();
    b.add_edge(None, &remote("a", "^1.0.0")).unwrap();
    let d = b
        .download_request(&name("a"), &registry(), &repository(), &Version::new(1, 2, 0))
        .unwrap();
    assert_eq!(d.package.as_str(), "a");
    match d.manifest {
        DependencyManifest::Remote(r) => assert_eq!(r.version.to_text(), "=1.2.0"),
        DependencyManifest::Local(_) => panic!("a local dependency"),
    }
}

#[test]
fn pins_that_fit_nothing_here_are_skipped() {
    let wanted = vec![VersionReq::parse("^1.0.0").unwrap()];
    let mut lockfile = Lockfile { packages: vec![pin("a", "1.1.0", "http://r/1")] };
    let (before, _) = lockfile.find_satisfying_all(&name("a"), &wanted).unwrap();
    lockfile.packages.push(pin("a", "2.0.0", "http://r/2"));
    lockfile.packages.push(pin("z", "1.9.0", "http://r/3"));
    let (after, file) = lockfile.find_satisfying_all(&name("a"), &wanted).unwrap();
    assert!(before.same(&after));
    assert_eq!(file.url, "http://r/1");
}

#[test]
fn edge_that_fits_schedules_nothing() {
    let mut b = builder();
    b.add_edge(None, &remote("a", "*")).unwrap();
    next(&mut b);
    settle(&mut b, "a", "1.0.0", vec![remote("c", "*")]);
    next(&mut b);
    settle(&mut b, "c", "1.0.0", vec![remote("a", "^1.0.0")]);
    assert!(next(&mut b).is_none());
}

#[test]
fn packages_that_only_require_each_other_are_dropped() {
    let mut b = builder();
    b.add_edge(None, &remote("lib-a", "^1.0.0")).unwrap();
    next(&mut b);
    settle(&mut b, "lib-a", "1.0.0", vec![remote("lib-c", "*")]);
    next(&mut b);
    settle(&mut b, "lib-c", "1.0.0", vec![remote("lib-d", "*")]);
    next(&mut b);
    settle(&mut b, "lib-d", "1.0.0", vec![remote("lib-c", "*")]);
    b.retract_contributions_from(&name("lib-a"));
    assert!(b.needs_visit(&name("lib-c")));
    assert!(b.needs_visit(&name("lib-d")));
    assert!(next(&mut b).is_none());
    let graph = b.into_graph();
    assert_eq!(graph.nodes.len(), 1);
    assert!(graph.nodes.contains(&name("lib-a")));
}

#[test]
fn second_retraction_changes_nothing() {
    let mut b = builder();
    b.add_edge(None, &remote("a", "*")).unwrap();
    b.add_edge(None, &remote("s", "*")).unwrap();
    next(&mut b);
    settle(&mut b, "a", "2.0.0", vec![remote("c", "*"), remote("s", "<2.0.0")]);
    next(&mut b);
    settle(&mut b, "s", "1.0.0", vec![]);
    next(&mut b);
    settle(&mut b, "c", "1.0.0", vec![remote("d", "*")]);
    b.retract_contributions_from(&name("a"));
    let once = b.snapshot();
    assert!(b.is_at(&once));
    b.retract_contributions_from(&name("a"));
    assert!(b.is_at(&once));
    b.add_edge(None, &remote("d", "*")).unwrap();
    assert!(!b.is_at(&once));
}

#[test]
fn retraction_reschedules_only_what_lost_a_requirement() {
    let mut b = builder();
    b.add_edge(None, &remote("a", "*")).unwrap();
    b.add_edge(None, &remote("s", ">=1.0.0")).unwrap();
    b.add_edge(None, &remote("u", "^1.0.0")).unwrap();
    next(&mut b);
    settle(&mut b, "a", "2.0.0", vec![remote("s", "*")]);
    next(&mut b);
    // A version that the requirements do not admit.
    settle(&mut b, "s", "0.5.0", vec![]);
    next(&mut b);
    settle(&mut b, "u", "2.0.0", vec![]);
    assert_eq!(b.pending(), 0);
    b.retract_contributions_from(&name("a"));
    assert_eq!(b.pending(), 1);
    assert_eq!(next(&mut b).unwrap(), "s");
    assert!(next(&mut b).is_none());
}

#[test]
fn package_that_is_put_off_comes_after_the_others() {
    let mut b = builder();
    b.add_edge(None, &remote("a", "*")).unwrap();
    b.add_edge(None, &remote("c", "*")).unwrap();
    assert_eq!(next(&mut b).unwrap(), "a");
    assert!(b.has_due_before(1));
    b.put_off(&name("a"));
    assert_eq!(b.pending(), 2);
    assert_eq!(next(&mut b).unwrap(), "c");
    settle(&mut b, "c", "1.0.0", vec![]);
    assert_eq!(next(&mut b).unwrap(), "a");
    assert!(!b.has_due_before(0));
    assert!(b.has_node(&name("c")));
    assert!(!b.has_node(&name("a")));
}

#[test]
fn sources_match_when_both_are_local_or_both_remote() {
    let local = || DependencySource::Local { path: vec!["x".to_string()] };
    let elsewhere = DependencySource::Local { path: vec!["y".to_string()] };
    let remote =
        || DependencySource::Remote { registry: registry(), repository: repository() };
    let check = |a: &DependencySource, b: &DependencySource| {
        GraphBuilder::ensure_source_kinds_match(&name("a"), a, b)
    };
    assert!(check(&local(), &elsewhere).is_ok());
    assert!(check(&remote(), &remote()).is_ok());
    for (a, b) in [(local(), remote()), (remote(), local())] {
        match check(&a, &b) {
            Err(DependencyError::LocalRemoteConflict { package }) => {
                assert_eq!(package.as_str(), "a")
            }
            other => panic!("{:?}", other),
        }
    }
}

#[test]
fn api_that_a_lib_came_to_depend_on_is_found() {
    let mut b = builder();
    b.add_edge(None, &remote("x", "*")).unwrap();
    b.add_edge(None, &remote("l", "*")).unwrap();
    next(&mut b);
    let v = Version::new(1, 0, 0);
    let api = PackagesManifest {
        package: Some(PackageManifest { kind: PackageType::Api, name: name("x") }),
        dependencies: None,
    };
    b.fetch_and_walk(&name("x"), &registry(), &repository(), &v, &api).unwrap();
    assert!(b.ensure_libs_off_apis().is_ok());
    next(&mut b);
    settle(&mut b, "l", "1.0.0", vec![remote("x", "*")]);
    match b.ensure_libs_off_apis() {
        Err(DependencyError::InvalidPackageTypeDependency { parent, dependency }) => {
            assert_eq!(parent.as_str(), "l");
            assert_eq!(dependency.as_str(), "x");
        }
        other => panic!("{:?}", other),
    }
}

#[test]
fn requirement_that_is_no_longer_asked_for_counts_while_a_version_meets_it() {
    let mut b = builder();
    b.add_edge(None, &remote("p", "*")).unwrap();
    next(&mut b);
    settle(&mut b, "p", "2.0.0", vec![remote("x", "*")]);
    next(&mut b);
    settle(&mut b, "x", "1.0.0", vec![remote("p", "<2.0.0")]);
    b.retract_contributions_from(&name("p"));
    let both = || vec![Version::new(2, 0, 0), Version::new(1, 0, 0)];
    b.reconsider(&name("p"), &both());
    assert_eq!(b.select_version(&name("p"), both()).unwrap().to_text(), "1.0.0");
    b.reconsider(&name("p"), &vec![Version::new(2, 0, 0)]);
    assert_eq!(b.select_version(&name("p"), both()).unwrap().to_text(), "2.0.0");
    assert!(!b.needs_visit(&name("p")));
}

#[test]
fn retraction_of_a_package_that_requires_none_changes_nothing() {
    let mut b = builder();
    b.add_edge(None, &remote("a", "*")).unwrap();
    b.add_edge(None, &remote("s", "^1.0.0")).unwrap();
    next(&mut b);
    settle(&mut b, "a", "2.0.0", vec![remote("c", "*"), remote("s", "<2.0.0")]);
    next(&mut b);
    settle(&mut b, "s", "1.0.0", vec![]);
    let before = b.snapshot();
    b.retract_contributions_from(&name("s"));
    assert!(b.is_at(&before));
    b.retract_contributions_from(&name("nowhere"));
    assert!(b.is_at(&before));
    b.retract_contributions_from(&name("a"));
    assert!(!b.is_at(&before));
}

#[test]
fn part_of_the_worklist_can_go_behind_the_rest() {
    let mut b = builder();
    for package in ["a", "c", "d", "e"] {
        b.add_edge(None, &remote(package, "*")).unwrap();
    }
    b.move_behind(1, 3);
    let mut order = vec![];
    while let Some(package) = next(&mut b) {
        order.push(package);
    }
    assert_eq!(order, vec!["a", "e", "c", "d"]);
}
