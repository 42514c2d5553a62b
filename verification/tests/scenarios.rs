use buffrs_resolver::error::DependencyError;
use buffrs_resolver::graph::{DependencyGraph, DependencySource};
use buffrs_resolver::lockfile::{FileRequirement, LockedPackage, Lockfile};
use buffrs_resolver::manifest::{
    Dependency, DependencyManifest, LocalDependencyManifest, PackageManifest, PackagesManifest,
    RegistryUri, RemoteDependencyManifest,
};
use buffrs_resolver::package::{NetworkMode, PackageName, PackageType};
use buffrs_resolver::resolver::Step;
use buffrs_resolver::version::{Version, VersionReq};

const URL: &str = "http://registry.test/artifactory";

fn name(text: &str) -> PackageName {
    PackageName::unchecked(text)
}

fn version(text: &str) -> Version {
    Version::parse(text).unwrap()
}

fn registry() -> RegistryUri {
    RegistryUri { text: URL.to_string() }
}

fn remote(package: &str, req: &str) -> Dependency {
    Dependency {
        package: name(package),
        manifest: DependencyManifest::Remote(RemoteDependencyManifest {
            registry: registry(),
            repository: "test-repo".to_string(),
            version: VersionReq::parse(req).unwrap(),
        }),
    }
}

fn local(package: &str, path: &str) -> Dependency {
    Dependency {
        package: name(package),
        manifest: DependencyManifest::Local(LocalDependencyManifest { path: path.to_string() }),
    }
}

fn manifest(kind: PackageType, package: &str, dependencies: Vec<Dependency>) -> PackagesManifest {
    PackagesManifest {
        package: Some(PackageManifest { kind, name: name(package) }),
        dependencies: Some(dependencies),
    }
}

/// A published package: its name, its version, its type, and its dependencies.
struct Published {
    package: &'static str,
    version: &'static str,
    kind: PackageType,
    dependencies: Vec<(&'static str, &'static str)>,
}

fn published(
    package: &'static str,
    version: &'static str,
    dependencies: Vec<(&'static str, &'static str)>,
) -> Published {
    Published { package, version, kind: PackageType::Lib, dependencies }
}

fn api(
    package: &'static str,
    version: &'static str,
    dependencies: Vec<(&'static str, &'static str)>,
) -> Published {
    Published { package, version, kind: PackageType::Api, dependencies }
}

/// A local package: its directory, its type and its dependencies.
struct Directory {
    path: Vec<&'static str>,
    package: &'static str,
    kind: PackageType,
    dependencies: fn() -> Vec<Dependency>,
}

struct World {
    packages: Vec<Published>,
    directories: Vec<Directory>,
    /// The digests of the files in the cache
    cache: Vec<String>,
}

impl World {
    fn of(packages: Vec<Published>) -> World {
        World { packages, directories: vec![], cache: vec![] }
    }

    fn manifest_of(&self, package: &str, version: &str) -> PackagesManifest {
        let p = self
            .packages
            .iter()
            .find(|p| p.package == package && p.version == version)
            .expect("published");
        manifest(
            p.kind,
            p.package,
            p.dependencies.iter().map(|(n, r)| remote(n, r)).collect(),
        )
    }

    /// Resolves the dependencies of a manifest, and says what was looked up.
    fn resolve(
        &self,
        root: &PackagesManifest,
        lockfile: Option<Lockfile>,
        mode: NetworkMode,
    ) -> (Result<DependencyGraph, DependencyError>, Vec<String>) {
        let mut log = Vec::new();
        let mut step = match DependencyGraph::begin(root, vec!["/work".to_string()], lockfile, mode)
        {
            Ok(step) => step,
            Err(e) => return (Err(e), log),
        };
        loop {
            let next = match step {
                Step::ReadManifest(reading) => {
                    log.push(format!("read {}", reading.path().join("|")));
                    let found = self
                        .directories
                        .iter()
                        .find(|d| d.path.iter().map(|s| s.to_string()).collect::<Vec<_>>()
                            == *reading.path())
                        .expect("a directory");
                    let m = manifest(found.kind, found.package, (found.dependencies)());
                    reading.resolve_local(m)
                }
                Step::ListVersions(listing) => {
                    log.push(format!("list {}", listing.package().as_str()));
                    assert_eq!(listing.registry().text, URL);
                    assert_eq!(listing.repository(), "test-repo");
                    let versions = self
                        .packages
                        .iter()
                        .filter(|p| p.package == listing.package().as_str())
                        .map(|p| version(p.version))
                        .collect();
                    listing.select(versions)
                }
                Step::LookUp(looking_up) => {
                    let v = looking_up.version().to_text();
                    let package = looking_up.package().as_str().to_string();
                    log.push(format!("look up {}@{} {}", package, v, looking_up.file().digest));
                    let cached = if self.cache.contains(&looking_up.file().digest) {
                        Some(self.manifest_of(&package, &v))
                    } else {
                        None
                    };
                    looking_up.use_cached(cached)
                }
                Step::Download(downloading) => {
                    let v = downloading.version().to_text();
                    let package = downloading.package().as_str().to_string();
                    match &downloading.dependency().manifest {
                        DependencyManifest::Remote(r) => {
                            assert_eq!(r.version.to_text(), format!("={}", v));
                            assert_eq!(r.registry.text, downloading.registry().text);
                        }
                        DependencyManifest::Local(_) => panic!("a download of a local package"),
                    }
                    assert_eq!(downloading.dependency().package.as_str(), package);
                    log.push(format!("download {}@{}", package, v));
                    let m = self.manifest_of(&package, &v);
                    downloading.walk(m)
                }
                Step::Done(resolved) => return (DependencyGraph::build(resolved), log),
            };
            step = match next {
                Ok(step) => step,
                Err(e) => return (Err(e), log),
            };
        }
    }
}

/// The version that a package is resolved to.
fn pick(graph: &DependencyGraph, package: &str) -> Option<String> {
    graph
        .nodes
        .get(&name(package))
        .map(|node| node.resolved_version.as_ref().map(|v| v.to_text()).unwrap_or_default())
}

/// The lockfile that a graph leads to.
fn lock(graph: &DependencyGraph) -> Lockfile {
    let packages = graph
        .ordered_dependencies()
        .unwrap()
        .into_iter()
        .map(|d| pin(d.name.as_str(), &d.node.resolved_version.unwrap().to_text()))
        .collect();
    Lockfile { packages }
}

fn digest(package: &str, version: &str) -> String {
    format!("sha256:{}-{}", package, version)
}

fn pin(package: &str, v: &str) -> LockedPackage {
    LockedPackage {
        name: name(package),
        version: version(v),
        file: FileRequirement {
            url: format!("{}/test-repo/{}/{}-{}.tgz", URL, package, package, v),
            digest: digest(package, v),
        },
    }
}

fn pkg1(dependencies: Vec<Dependency>) -> PackagesManifest {
    manifest(PackageType::Api, "pkg1", dependencies)
}

#[test]
fn range_cascade_resolution() {
    let world = World::of(vec![
        published("lib-b", "1.0.0", vec![]),
        published("lib-b", "2.0.0", vec![]),
        published("lib-a", "1.5.0", vec![("lib-b", "^2.0.0")]),
        published("lib-a", "1.2.0", vec![("lib-b", "^1.0.0")]),
        published("mid", "1.0.0", vec![("lib-a", "~1.2.0")]),
    ]);
    let root = pkg1(vec![remote("lib-a", "^1.0.0"), remote("mid", "^1.0.0")]);
    let (graph, log) = world.resolve(&root, None, NetworkMode::Online);
    let graph = graph.unwrap();
    assert_eq!(pick(&graph, "lib-a").unwrap(), "1.2.0", "lib-a must downgrade");
    assert_eq!(pick(&graph, "lib-b").unwrap(), "1.0.0", "lib-b must follow the new lib-a");
    assert_eq!(pick(&graph, "mid").unwrap(), "1.0.0");
    let locked = lock(&graph);
    assert!(locked.packages.iter().all(|p| p.version.to_text() != "2.0.0"));
    // The higher version was walked first, so what it pulled in had to be retracted.
    assert!(log.contains(&"download lib-a@1.5.0".to_string()));
    assert!(log.contains(&"download lib-a@1.2.0".to_string()));
}

#[test]
fn range_downgrade_diamond() {
    let world = World::of(vec![
        published("lib-a", "1.0.0", vec![]),
        published("lib-a", "1.2.0", vec![]),
        published("lib-a", "1.5.0", vec![]),
        published("lib-x", "1.0.0", vec![("lib-a", "^1.0.0")]),
        published("lib-y", "1.0.0", vec![("lib-a", "<=1.2.0")]),
    ]);
    let root = pkg1(vec![remote("lib-x", "^1.0.0"), remote("lib-y", "^1.0.0")]);
    let (graph, _) = world.resolve(&root, None, NetworkMode::Online);
    let graph = graph.unwrap();
    let locked = lock(&graph);
    assert_eq!(
        locked.packages.iter().filter(|p| p.name.as_str() == "lib-a").count(),
        1,
        "lib-a must be resolved to a single version"
    );
    assert_eq!(pick(&graph, "lib-a").unwrap(), "1.2.0");
}

#[test]
fn range_lockfile_reresolution() {
    let world = World::of(vec![
        published("lib-a", "1.0.0", vec![]),
        published("lib-a", "1.2.0", vec![]),
        published("lib-a", "1.5.0", vec![]),
        published("lib-x", "1.0.0", vec![("lib-a", "^1.0.0")]),
        published("lib-y", "1.0.0", vec![("lib-a", "<=1.2.0")]),
    ]);
    let root = pkg1(vec![remote("lib-x", "^1.0.0")]);
    let (graph, _) = world.resolve(&root, None, NetworkMode::Online);
    let graph = graph.unwrap();
    assert_eq!(
        pick(&graph, "lib-a").unwrap(),
        "1.5.0",
        "first install pins the highest version satisfying ^1.0.0"
    );
    let locked = lock(&graph);

    // A second path to lib-a that the pin cannot satisfy.
    let root = pkg1(vec![remote("lib-x", "^1.0.0"), remote("lib-y", "^1.0.0")]);
    let (graph, _) = world.resolve(&root, Some(locked), NetworkMode::Online);
    let graph = graph.unwrap();
    let locked = lock(&graph);
    assert_eq!(
        locked.packages.iter().filter(|p| p.name.as_str() == "lib-a").count(),
        1,
        "lib-a must be re-pinned, not duplicated"
    );
    assert_eq!(pick(&graph, "lib-a").unwrap(), "1.2.0", "stale pin must be re-resolved to 1.2.0");
    assert!(pick(&graph, "lib-x").is_some() && pick(&graph, "lib-y").is_some());
}

#[test]
fn range_pin_reuse() {
    let mut world = World::of(vec![
        published("lib-a", "1.0.0", vec![]),
        published("lib-a", "1.2.0", vec![]),
    ]);
    let root = pkg1(vec![remote("lib-a", "^1.0.0")]);
    let (graph, _) = world.resolve(&root, None, NetworkMode::Online);
    let first = lock(&graph.unwrap());
    assert_eq!(first.packages[0].version.to_text(), "1.2.0");

    // A newer compatible version appears after the pin was written.
    world.packages.push(published("lib-a", "1.3.0", vec![]));
    let digests: Vec<String> = first.packages.iter().map(|p| p.file.digest.clone()).collect();
    let (graph, log) = world.resolve(&root, Some(first), NetworkMode::Online);
    let second = lock(&graph.unwrap());
    assert_eq!(second.packages.len(), 1);
    assert_eq!(second.packages[0].version.to_text(), "1.2.0");
    assert_eq!(
        second.packages.iter().map(|p| p.file.digest.clone()).collect::<Vec<_>>(),
        digests
    );
    // The registry was never asked for a version.
    assert!(log.iter().all(|l| !l.starts_with("list")));
}

#[test]
fn cached_pin_is_not_downloaded() {
    let mut world = World::of(vec![published("lib-a", "1.2.0", vec![])]);
    world.cache.push(digest("lib-a", "1.2.0"));
    let root = pkg1(vec![remote("lib-a", "^1.0.0")]);
    let locked = Lockfile { packages: vec![pin("lib-a", "1.2.0")] };
    let (graph, log) = world.resolve(&root, Some(locked), NetworkMode::Offline);
    assert_eq!(pick(&graph.unwrap(), "lib-a").unwrap(), "1.2.0");
    assert_eq!(log, vec!["look up lib-a@1.2.0 sha256:lib-a-1.2.0".to_string()]);
}

#[test]
fn offline_without_cached_file_is_an_error() {
    let world = World::of(vec![published("lib-a", "1.2.0", vec![])]);
    let root = pkg1(vec![remote("lib-a", "^1.0.0"), remote("lib-a", "<2.0.0")]);
    let locked = Lockfile { packages: vec![pin("lib-a", "1.2.0")] };
    let (graph, _) = world.resolve(&root, Some(locked), NetworkMode::Offline);
    let e = graph.err().unwrap();
    assert!(matches!(e, DependencyError::Offline { .. }));
    assert_eq!(
        e.message(),
        "cannot fetch lib-a in offline mode (required: [^1.0.0, <2.0.0])"
    );
}

#[test]
fn offline_without_pin_is_an_error() {
    let world = World::of(vec![published("lib-a", "1.2.0", vec![])]);
    let root = pkg1(vec![remote("lib-a", "^1.0.0")]);
    let (graph, log) = world.resolve(&root, None, NetworkMode::Offline);
    let e = graph.err().unwrap();
    assert!(matches!(e, DependencyError::Offline { .. }));
    assert_eq!(e.message(), "cannot fetch lib-a in offline mode (required: [^1.0.0])");
    // The registry is not asked at all.
    assert!(log.is_empty());
}

#[test]
fn offline_with_a_pin_that_fails_a_requirement_is_an_error() {
    let mut world = World::of(vec![
        published("lib-a", "1.2.0", vec![("lib-b", "^2.0.0")]),
        published("lib-b", "1.0.0", vec![]),
        published("lib-b", "2.0.0", vec![]),
    ]);
    world.cache.push(digest("lib-a", "1.2.0"));
    world.cache.push(digest("lib-b", "1.0.0"));
    let root = pkg1(vec![remote("lib-a", "^1.0.0")]);
    let locked = Lockfile { packages: vec![pin("lib-a", "1.2.0"), pin("lib-b", "1.0.0")] };
    let (graph, log) = world.resolve(&root, Some(locked), NetworkMode::Offline);
    assert_eq!(
        graph.err().unwrap().message(),
        "cannot fetch lib-b in offline mode (required: [^2.0.0])"
    );
    assert_eq!(log, vec!["look up lib-a@1.2.0 sha256:lib-a-1.2.0".to_string()]);
}

#[test]
fn pin_from_another_registry_is_not_used() {
    let world = World::of(vec![
        published("lib-a", "1.2.0", vec![]),
        published("lib-a", "1.3.0", vec![]),
    ]);
    let root = pkg1(vec![remote("lib-a", "^1.0.0")]);
    let mut elsewhere = pin("lib-a", "1.2.0");
    elsewhere.file.url = "http://elsewhere.test/lib-a-1.2.0.tgz".to_string();
    let locked = Lockfile { packages: vec![elsewhere] };
    let (graph, log) = world.resolve(&root, Some(locked), NetworkMode::Online);
    assert_eq!(pick(&graph.unwrap(), "lib-a").unwrap(), "1.3.0");
    assert_eq!(log, vec!["list lib-a".to_string(), "download lib-a@1.3.0".to_string()]);
}

#[test]
fn empty_intersection_is_an_error() {
    let world = World::of(vec![
        published("leaf-lib", "2.0.0", vec![]),
        published("leaf-lib", "1.0.0", vec![]),
        published("lib-x", "1.0.0", vec![("leaf-lib", "^1.0.0")]),
        published("lib-y", "1.0.0", vec![("leaf-lib", "^2.0.0")]),
    ]);
    let root = pkg1(vec![remote("lib-x", "^1.0.0"), remote("lib-y", "^1.0.0")]);
    let (graph, _) = world.resolve(&root, None, NetworkMode::Online);
    assert_eq!(
        graph.err().unwrap().message(),
        "no version of leaf-lib satisfies all requirements: [^1.0.0, ^2.0.0]; \
         available versions: [2.0.0, 1.0.0]"
    );
}

#[test]
fn unpublished_package_is_an_error() {
    let world = World::of(vec![]);
    let root = pkg1(vec![remote("ghost-lib", "^1.0.0")]);
    let (graph, _) = world.resolve(&root, None, NetworkMode::Online);
    assert_eq!(
        graph.err().unwrap().message(),
        "no version of ghost-lib satisfies all requirements: [^1.0.0]; \
         available versions: [(none published)]"
    );
}

#[test]
fn root_requirements_are_merged_before_anything_is_resolved() {
    let world = World::of(vec![
        published("lib-a", "1.0.0", vec![]),
        published("lib-a", "1.5.0", vec![]),
    ]);
    let root = pkg1(vec![remote("lib-a", "^1.0.0"), remote("lib-a", "<1.5.0")]);
    let (graph, log) = world.resolve(&root, None, NetworkMode::Online);
    assert_eq!(pick(&graph.unwrap(), "lib-a").unwrap(), "1.0.0");
    assert_eq!(log, vec!["list lib-a".to_string(), "download lib-a@1.0.0".to_string()]);
}

#[test]
fn graph_without_dependencies_is_empty() {
    let world = World::of(vec![]);
    let root = PackagesManifest { package: None, dependencies: None };
    let (graph, log) = world.resolve(&root, None, NetworkMode::Offline);
    let graph = graph.unwrap();
    assert_eq!(graph.nodes.len(), 0);
    assert_eq!(graph.network_mode, NetworkMode::Offline);
    assert!(log.is_empty());
}

#[test]
fn cycle_is_reported_on_the_finished_graph() {
    let world = World::of(vec![
        published("lib-a", "1.0.0", vec![("lib-b", "^1.0.0")]),
        published("lib-b", "1.0.0", vec![("lib-a", "^1.0.0")]),
        published("lib-c", "1.0.0", vec![]),
    ]);
    let root = pkg1(vec![remote("lib-a", "^1.0.0"), remote("lib-c", "^1.0.0")]);
    let (graph, log) = world.resolve(&root, None, NetworkMode::Online);
    let text = graph.err().unwrap().message();
    assert!(
        text == "circular dependency detected: lib-a -> lib-b"
            || text == "circular dependency detected: lib-b -> lib-a",
        "{}",
        text
    );
    // The back-edge into lib-a schedules no further work.
    assert_eq!(log.iter().filter(|l| l.starts_with("download")).count(), 3);
}

#[test]
fn lib_cannot_depend_on_api() {
    let world = World::of(vec![
        published("lib-a", "1.0.0", vec![("api-b", "^1.0.0")]),
        api("api-b", "1.0.0", vec![]),
    ]);
    let root = pkg1(vec![remote("lib-a", "^1.0.0")]);
    let (graph, _) = world.resolve(&root, None, NetworkMode::Online);
    assert_eq!(
        graph.err().unwrap().message(),
        "package of type lib cannot depend on package of type api: lib-a -> api-b"
    );
}

#[test]
fn lib_root_cannot_depend_on_api() {
    let world = World::of(vec![api("api-b", "1.0.0", vec![])]);
    let root = manifest(PackageType::Lib, "pkg1", vec![remote("api-b", "^1.0.0")]);
    let (graph, _) = world.resolve(&root, None, NetworkMode::Online);
    assert_eq!(
        graph.err().unwrap().message(),
        "package of type lib cannot depend on package of type api: parent -> api-b"
    );
}

#[test]
fn api_may_depend_on_api_and_lib() {
    let world = World::of(vec![
        api("api-b", "1.0.0", vec![("lib-c", "*")]),
        published("lib-c", "0.1.0", vec![]),
    ]);
    let root = pkg1(vec![remote("api-b", "^1.0.0")]);
    let (graph, _) = world.resolve(&root, None, NetworkMode::Online);
    let graph = graph.unwrap();
    assert_eq!(graph.nodes.get(&name("api-b")).unwrap().package_type, Some(PackageType::Api));
    assert_eq!(graph.nodes.get(&name("lib-c")).unwrap().package_type, Some(PackageType::Lib));
}

#[test]
fn api_that_is_resolved_before_a_lib_asks_for_it_is_an_error() {
    let world = World::of(vec![
        api("api-b", "1.0.0", vec![]),
        published("lib-a", "1.0.0", vec![("api-b", "^1.0.0")]),
    ]);
    let root = pkg1(vec![remote("api-b", "^1.0.0"), remote("lib-a", "^1.0.0")]);
    let (graph, _) = world.resolve(&root, None, NetworkMode::Online);
    match graph.err().unwrap() {
        DependencyError::InvalidPackageTypeDependency { parent, dependency } => {
            assert_eq!(parent.as_str(), "lib-a");
            assert_eq!(dependency.as_str(), "api-b");
        }
        other => panic!("{:?}", other),
    }
}

#[test]
fn conflict_that_a_later_pick_lifts_is_no_error() {
    let world = World::of(vec![
        published("lib-a", "1.5.0", vec![("lib-b", "^2.0.0")]),
        published("lib-a", "1.2.0", vec![("lib-b", "^1.0.0")]),
        published("lib-b", "1.0.0", vec![]),
        published("lib-b", "2.0.0", vec![]),
        published("mid", "1.0.0", vec![("lib-a", "~1.2.0")]),
    ]);
    let root = pkg1(vec![
        remote("lib-a", "^1.0.0"),
        remote("lib-b", "^1.0.0"),
        remote("mid", "^1.0.0"),
    ]);
    let (graph, log) = world.resolve(&root, None, NetworkMode::Online);
    let graph = graph.unwrap();
    assert_eq!(pick(&graph, "lib-a").unwrap(), "1.2.0");
    assert_eq!(pick(&graph, "lib-b").unwrap(), "1.0.0");
    assert_eq!(pick(&graph, "mid").unwrap(), "1.0.0");
    assert_eq!(
        log,
        vec![
            "list lib-a",
            "download lib-a@1.5.0",
            "list lib-b",
            "list mid",
            "download mid@1.0.0",
            "list lib-a",
            "download lib-a@1.2.0",
            "list lib-b",
            "download lib-b@1.0.0",
        ]
    );
}

#[test]
fn first_of_several_conflicts_is_reported() {
    let world = World::of(vec![
        published("lib-a", "1.0.0", vec![]),
        published("lib-b", "1.0.0", vec![]),
    ]);
    let root = pkg1(vec![remote("lib-a", "^2.0.0"), remote("lib-b", "^3.0.0")]);
    let (graph, log) = world.resolve(&root, None, NetworkMode::Online);
    assert_eq!(
        graph.err().unwrap().message(),
        "no version of lib-a satisfies all requirements: [^2.0.0]; available versions: [1.0.0]"
    );
    assert_eq!(log, vec!["list lib-a", "list lib-b"]);
}

#[test]
fn first_conflict_is_reported_whatever_is_resolved_after_it() {
    let world = World::of(vec![
        published("lib-a", "1.0.0", vec![]),
        published("lib-c", "1.0.0", vec![("lib-e", "*"), ("lib-a", "^5.0.0")]),
        published("lib-d", "1.0.0", vec![]),
        published("lib-e", "1.0.0", vec![("lib-f", "*")]),
        published("lib-f", "1.0.0", vec![]),
    ]);
    let root = pkg1(vec![
        remote("lib-a", "^2.0.0"),
        remote("lib-c", "*"),
        remote("lib-d", "^3.0.0"),
    ]);
    let (graph, log) = world.resolve(&root, None, NetworkMode::Online);
    assert_eq!(
        graph.err().unwrap().message(),
        "no version of lib-a satisfies all requirements: [^2.0.0]; available versions: [1.0.0]"
    );
    // While nothing is retracted, no published versions are asked for twice.
    assert_eq!(
        log,
        vec![
            "list lib-a",
            "list lib-c",
            "download lib-c@1.0.0",
            "list lib-d",
            "list lib-e",
            "download lib-e@1.0.0",
            "list lib-f",
            "download lib-f@1.0.0",
        ]
    );
}

#[test]
fn conflict_that_was_put_off_comes_before_other_errors() {
    let world = World::of(vec![
        published("lib-a", "1.0.0", vec![]),
        published("lib-b", "1.0.0", vec![("api-c", "*")]),
        api("api-c", "1.0.0", vec![]),
    ]);
    let root = pkg1(vec![remote("lib-a", "^2.0.0"), remote("lib-b", "*")]);
    let (graph, log) = world.resolve(&root, None, NetworkMode::Online);
    match graph.err().unwrap() {
        DependencyError::NoCompatibleVersion { package, .. } => {
            assert_eq!(package.as_str(), "lib-a")
        }
        other => panic!("{:?}", other),
    }
    assert!(log.contains(&"download api-c@1.0.0".to_string()));
}

#[test]
fn first_conflict_stays_first_when_picks_change() {
    let world = World::of(vec![
        published("lib-a", "1.0.0", vec![]),
        published("lib-c", "1.0.0", vec![("lib-e", "*")]),
        published("lib-d", "1.0.0", vec![]),
        published("lib-e", "2.0.0", vec![]),
        published("lib-e", "1.0.0", vec![]),
        published("lib-g", "1.0.0", vec![("lib-h", "*")]),
        published("lib-h", "1.0.0", vec![("lib-e", "<2.0.0")]),
    ]);
    let root = pkg1(vec![
        remote("lib-a", "^2.0.0"),
        remote("lib-c", "*"),
        remote("lib-d", "^3.0.0"),
        remote("lib-g", "*"),
    ]);
    let (graph, log) = world.resolve(&root, None, NetworkMode::Online);
    match graph.err().unwrap() {
        DependencyError::NoCompatibleVersion { package, .. } => {
            assert_eq!(package.as_str(), "lib-a")
        }
        other => panic!("{:?}", other),
    }
    assert!(log.contains(&"download lib-e@1.0.0".to_string()));
}

#[test]
fn conflict_outlasts_a_changed_pick_that_does_not_touch_it() {
    let world = World::of(vec![
        published("lib-a", "1.0.0", vec![]),
        published("lib-r", "2.0.0", vec![("lib-t", "*")]),
        api("lib-r", "1.0.0", vec![]),
        published("lib-s", "1.0.0", vec![("lib-r", "<2.0.0")]),
        published("lib-t", "1.0.0", vec![]),
    ]);
    let packages = || vec![remote("lib-r", "*"), remote("lib-s", "*")];
    let (graph, _) = world.resolve(&pkg1(packages()), None, NetworkMode::Online);
    assert_eq!(
        graph.err().unwrap().message(),
        "package of type lib cannot depend on package of type api: lib-s -> lib-r"
    );
    let mut all = packages();
    all.insert(0, remote("lib-a", "^2.0.0"));
    let (graph, log) = world.resolve(&pkg1(all), None, NetworkMode::Online);
    assert_eq!(
        graph.err().unwrap().message(),
        "no version of lib-a satisfies all requirements: [^2.0.0]; available versions: [1.0.0]"
    );
    assert!(log.contains(&"download lib-r@1.0.0".to_string()));
    assert_eq!(log.iter().filter(|l| *l == "list lib-a").count(), 1);
}

#[test]
fn conflict_is_reported_where_an_answer_cannot_be_had() {
    let root = pkg1(vec![remote("lib-a", "^2.0.0"), remote("lib-b", "*")]);
    let begin = || {
        DependencyGraph::begin(&root, vec!["/work".to_string()], None, NetworkMode::Online).unwrap()
    };
    match begin() {
        Step::ListVersions(listing) => assert!(listing.give_up().is_none()),
        _ => panic!("no versions asked for"),
    }
    match begin() {
        Step::ListVersions(listing) => match listing.select(vec![version("1.0.0")]).unwrap() {
            Step::ListVersions(next) => {
                assert_eq!(next.package().as_str(), "lib-b");
                assert_eq!(
                    next.give_up().unwrap().message(),
                    "no version of lib-a satisfies all requirements: [^2.0.0]; \
                     available versions: [1.0.0]"
                );
            }
            _ => panic!("no versions asked for"),
        },
        _ => panic!("no versions asked for"),
    }
}

#[test]
fn pins_fall_as_requirements_are_added() {
    let mut world = World::of(vec![
        published("lib-a", "3.0.0", vec![]),
        published("lib-a", "2.0.0", vec![]),
        published("lib-a", "1.0.0", vec![]),
        published("lib-x", "1.0.0", vec![("lib-a", "<3.0.0"), ("lib-y", "*")]),
        published("lib-y", "1.0.0", vec![("lib-a", "<2.0.0")]),
    ]);
    let mut packages = vec![pin("lib-x", "1.0.0"), pin("lib-y", "1.0.0")];
    for v in ["1.0.0", "3.0.0", "2.0.0"] {
        packages.push(pin("lib-a", v));
    }
    for p in &packages {
        world.cache.push(p.file.digest.clone());
    }
    let root = pkg1(vec![remote("lib-a", "*"), remote("lib-x", "*")]);
    let (graph, log) = world.resolve(&root, Some(Lockfile { packages }), NetworkMode::Offline);
    assert_eq!(pick(&graph.unwrap(), "lib-a").unwrap(), "1.0.0");
    let walked: Vec<&String> = log.iter().filter(|l| l.starts_with("look up lib-a")).collect();
    assert_eq!(
        walked,
        vec![
            "look up lib-a@3.0.0 sha256:lib-a-3.0.0",
            "look up lib-a@2.0.0 sha256:lib-a-2.0.0",
            "look up lib-a@1.0.0 sha256:lib-a-1.0.0",
        ]
    );
}

/// A package that only the higher version of another pulls in, and that pulls in a package that
/// requires it in turn.
fn detour(steps: Vec<Published>, last: &'static str) -> World {
    let mut packages = vec![
        published("q", "2.0.0", vec![("p", "*")]),
        published("q", "1.0.0", vec![]),
        published("p", "2.0.0", vec![("x", "*")]),
        published("p", "1.0.0", vec![]),
        published("x", "1.0.0", vec![("p", "<2.0.0")]),
        published("t", "1.0.0", vec![("s", "*")]),
        published(last, "1.0.0", vec![("q", "<2.0.0")]),
    ];
    packages.extend(steps);
    World::of(packages)
}

#[test]
fn package_that_only_its_own_dependencies_require_is_dropped() {
    let root = pkg1(vec![remote("q", "*"), remote("t", "*")]);

    // The retraction comes while both versions of p are still open.
    let world = detour(vec![], "s");
    let (graph, log) = world.resolve(&root, None, NetworkMode::Online);
    let graph = graph.unwrap();
    assert_eq!(pick(&graph, "q").unwrap(), "1.0.0");
    assert!(pick(&graph, "p").is_none());
    assert!(pick(&graph, "x").is_none());
    assert_eq!(graph.nodes.len(), 3);
    assert!(log.contains(&"download x@1.0.0".to_string()));

    // The retraction comes after p was lowered.
    let world = detour(
        vec![
            published("s", "1.0.0", vec![("s1", "*")]),
            published("s1", "1.0.0", vec![("s2", "*")]),
            published("s2", "1.0.0", vec![("s3", "*")]),
        ],
        "s3",
    );
    let (graph, log) = world.resolve(&root, None, NetworkMode::Online);
    let graph = graph.unwrap();
    assert_eq!(pick(&graph, "q").unwrap(), "1.0.0");
    assert!(pick(&graph, "p").is_none());
    assert!(pick(&graph, "x").is_none());
    assert_eq!(graph.nodes.len(), 6);
    assert!(log.contains(&"download p@1.0.0".to_string()));
}

#[test]
fn resolution_that_comes_back_to_a_state_is_an_error() {
    let world = World::of(vec![
        published("r", "2.0.0", vec![("s", "<2.0.0")]),
        published("r", "1.0.0", vec![("s", ">=2.0.0")]),
        published("s", "2.0.0", vec![("r", ">=2.0.0")]),
        published("s", "1.0.0", vec![("r", "<2.0.0")]),
    ]);
    let root = pkg1(vec![remote("r", "*"), remote("s", "*")]);
    let (graph, log) = world.resolve(&root, None, NetworkMode::Online);
    assert_eq!(graph.err().unwrap().message(), "circular dependency detected: r");
    assert_eq!(log.iter().filter(|l| l.starts_with("download")).count(), 6);
}

#[test]
fn versions_that_exclude_each_other_in_a_circle_are_an_error() {
    let world = World::of(vec![
        published("p", "2.0.0", vec![("q", ">=2.0.0")]),
        published("p", "1.0.0", vec![("q", "<2.0.0")]),
        published("q", "2.0.0", vec![("x", "*")]),
        published("q", "1.0.0", vec![("z", "*")]),
        published("x", "1.0.0", vec![("p", "<2.0.0")]),
        published("z", "1.0.0", vec![("p", ">=2.0.0")]),
    ]);
    for root in [
        pkg1(vec![remote("p", "*")]),
        pkg1(vec![remote("p", "*"), remote("q", "*")]),
        pkg1(vec![remote("q", "*"), remote("p", "*")]),
    ] {
        let (graph, _) = world.resolve(&root, None, NetworkMode::Online);
        let e = graph.err().unwrap();
        assert!(
            matches!(
                e,
                DependencyError::CircularDependency(_) | DependencyError::NoCompatibleVersion { .. }
            ),
            "{:?}",
            e
        );
    }
}

#[test]
fn equal_answers_lead_to_equal_graphs() {
    let world = detour(vec![], "s");
    let root = pkg1(vec![remote("q", "*"), remote("t", "*")]);
    let (first, first_log) = world.resolve(&root, None, NetworkMode::Online);
    let (second, second_log) = world.resolve(&root, None, NetworkMode::Online);
    let (first, second) = (first.unwrap(), second.unwrap());
    assert_eq!(first_log, second_log);
    assert_eq!(first.nodes.len(), second.nodes.len());
    for package in ["q", "t", "s"] {
        assert_eq!(pick(&first, package), pick(&second, package));
    }
}

#[test]
fn every_package_of_the_graph_is_reached_from_the_root() {
    let world = detour(vec![], "s");
    let root = pkg1(vec![remote("q", "*"), remote("t", "*")]);
    let (graph, _) = world.resolve(&root, None, NetworkMode::Online);
    let graph = graph.unwrap();
    let mut reached = vec!["q".to_string(), "t".to_string()];
    let mut i = 0;
    while i < reached.len() {
        for d in &graph.nodes.get(&name(&reached[i])).unwrap().dependencies {
            if !reached.contains(&d.as_str().to_string()) {
                reached.push(d.as_str().to_string());
            }
        }
        i += 1;
    }
    assert_eq!(reached.len(), graph.nodes.len());
}

#[test]
fn lowered_pick_is_below_the_earlier_one() {
    let world = World::of(vec![
        published("lib-a", "3.0.0", vec![]),
        published("lib-a", "2.0.0", vec![]),
        published("lib-a", "1.0.0", vec![]),
        published("lib-x", "1.0.0", vec![("lib-a", "<3.0.0"), ("lib-y", "*")]),
        published("lib-y", "1.0.0", vec![("lib-a", "<2.0.0")]),
    ]);
    let root = pkg1(vec![remote("lib-a", "*"), remote("lib-x", "*")]);
    let (graph, log) = world.resolve(&root, None, NetworkMode::Online);
    assert_eq!(pick(&graph.unwrap(), "lib-a").unwrap(), "1.0.0");
    let walked: Vec<&String> =
        log.iter().filter(|l| l.starts_with("download lib-a")).collect();
    assert_eq!(
        walked,
        vec!["download lib-a@3.0.0", "download lib-a@2.0.0", "download lib-a@1.0.0"]
    );
}

#[test]
fn local_paths_are_relative_to_the_package_that_names_them() {
    let mut world = World::of(vec![published("lib-r", "1.0.0", vec![])]);
    world.directories.push(Directory {
        path: vec!["/work", "../lib-a"],
        package: "lib-a",
        kind: PackageType::Lib,
        dependencies: || vec![local("lib-b", "../lib-b"), remote("lib-r", "^1.0.0")],
    });
    world.directories.push(Directory {
        path: vec!["/work", "../lib-a", "../lib-b"],
        package: "lib-b",
        kind: PackageType::Lib,
        dependencies: Vec::new,
    });
    world.directories.push(Directory {
        path: vec!["/work", "../lib-c"],
        package: "lib-c",
        kind: PackageType::Lib,
        dependencies: || vec![local("lib-b", "elsewhere")],
    });
    let root = pkg1(vec![local("lib-a", "../lib-a"), local("lib-c", "../lib-c")]);
    let (graph, log) = world.resolve(&root, None, NetworkMode::Online);
    let graph = graph.unwrap();
    assert_eq!(
        log,
        vec![
            "read /work|../lib-a".to_string(),
            "read /work|../lib-c".to_string(),
            "read /work|../lib-a|../lib-b".to_string(),
            "list lib-r".to_string(),
            "download lib-r@1.0.0".to_string(),
        ]
    );
    let node = graph.nodes.get(&name("lib-b")).unwrap();
    assert_eq!(node.version.to_text(), "*");
    assert!(node.resolved_version.is_none());
    match &node.source {
        DependencySource::Local { path } => {
            assert_eq!(path.join("|"), "/work|../lib-a|../lib-b")
        }
        DependencySource::Remote { .. } => panic!("a remote source"),
    }
    let node = graph.nodes.get(&name("lib-r")).unwrap();
    assert_eq!(node.version.to_text(), "=1.0.0");
    match &node.source {
        DependencySource::Remote { registry, repository } => {
            assert_eq!(registry.text, URL);
            assert_eq!(repository, "test-repo");
        }
        DependencySource::Local { .. } => panic!("a local source"),
    }
}

#[test]
fn package_cannot_be_local_and_remote() {
    let mut world = World::of(vec![published("lib-a", "1.0.0", vec![])]);
    world.directories.push(Directory {
        path: vec!["/work", "a"],
        package: "lib-a",
        kind: PackageType::Lib,
        dependencies: Vec::new,
    });
    let root = pkg1(vec![local("lib-a", "a"), remote("lib-a", "^1.0.0")]);
    let (graph, log) = world.resolve(&root, None, NetworkMode::Online);
    assert_eq!(
        graph.err().unwrap().message(),
        "local/remote dependency conflict for package lib-a"
    );
    assert!(log.is_empty());
}

#[test]
fn conflict_in_a_package_is_reported() {
    let mut world = World::of(vec![published("lib-a", "1.0.0", vec![("lib-b", "^1.0.0")])]);
    world.directories.push(Directory {
        path: vec!["/work", "b"],
        package: "lib-b",
        kind: PackageType::Lib,
        dependencies: || vec![remote("lib-a", "*"), local("lib-a", "a")],
    });
    let root = pkg1(vec![remote("lib-a", "^1.0.0"), local("lib-b", "b")]);
    let (graph, _) = world.resolve(&root, None, NetworkMode::Online);
    assert_eq!(
        graph.err().unwrap().message(),
        "local/remote dependency conflict for package lib-b"
    );
}

#[test]
fn retraction_cascades_through_packages_that_nothing_else_requires() {
    let world = World::of(vec![
        published("lib-a", "2.0.0", vec![("lib-b", "*"), ("lib-s", "*")]),
        published("lib-a", "1.0.0", vec![]),
        published("lib-b", "1.0.0", vec![("lib-c", "*")]),
        published("lib-c", "1.0.0", vec![("lib-s", "<2.0.0")]),
        published("lib-s", "1.0.0", vec![]),
        published("lib-s", "2.0.0", vec![]),
        published("lib-d", "1.0.0", vec![("lib-e", "*")]),
        published("lib-e", "1.0.0", vec![("lib-f", "*")]),
        published("lib-f", "1.0.0", vec![("lib-g", "*")]),
        published("lib-g", "1.0.0", vec![("lib-a", "<2.0.0")]),
    ]);
    let root = pkg1(vec![remote("lib-a", "*"), remote("lib-d", "*"), remote("lib-s", "*")]);
    let (graph, log) = world.resolve(&root, None, NetworkMode::Online);
    let graph = graph.unwrap();
    assert_eq!(pick(&graph, "lib-a").unwrap(), "1.0.0");
    assert!(pick(&graph, "lib-b").is_none());
    assert!(pick(&graph, "lib-c").is_none());
    assert!(log.contains(&"download lib-c@1.0.0".to_string()));
    // What stays keeps its pick: it is not raised again.
    assert_eq!(pick(&graph, "lib-s").unwrap(), "1.0.0");
    assert_eq!(graph.nodes.len(), 6);
}

#[test]
fn dropped_package_is_resolved_anew_when_it_comes_back() {
    let world = World::of(vec![
        published("lib-a", "2.0.0", vec![("lib-b", "^2.0.0")]),
        published("lib-a", "1.0.0", vec![("lib-b", "^1.0.0")]),
        published("lib-b", "2.1.0", vec![]),
        published("lib-b", "1.4.0", vec![]),
        published("lib-x", "1.0.0", vec![("lib-y", "*")]),
        published("lib-y", "1.0.0", vec![("lib-a", "^1.0.0")]),
    ]);
    let root = pkg1(vec![remote("lib-a", "*"), remote("lib-x", "*")]);
    let (graph, log) = world.resolve(&root, None, NetworkMode::Online);
    let graph = graph.unwrap();
    assert_eq!(pick(&graph, "lib-b").unwrap(), "1.4.0");
    assert!(log.contains(&"download lib-b@2.1.0".to_string()));
    assert_eq!(graph.dependants_count_of(&name("lib-a")), 1);
    assert_eq!(graph.dependants_count_of(&name("lib-b")), 1);
    assert_eq!(graph.dependants_count_of(&name("lib-x")), 0);
}

#[test]
fn dependencies_come_before_dependants() {
    let world = World::of(vec![
        published("lib-a", "1.0.0", vec![("lib-c", "*"), ("lib-b", "*")]),
        published("lib-b", "1.0.0", vec![("lib-c", "*")]),
        published("lib-c", "1.0.0", vec![]),
    ]);
    let root = pkg1(vec![remote("lib-a", "*")]);
    let (graph, _) = world.resolve(&root, None, NetworkMode::Online);
    let names: Vec<String> = graph
        .unwrap()
        .ordered_dependencies()
        .unwrap()
        .iter()
        .map(|d| d.name.as_str().to_string())
        .collect();
    assert_eq!(names, vec!["lib-c", "lib-b", "lib-a"]);
}

#[test]
fn every_requirement_is_met_in_the_finished_graph() {
    let world = World::of(vec![
        published("lib-a", "3.0.0", vec![("lib-b", ">=2.0.0")]),
        published("lib-a", "2.0.0", vec![("lib-b", "<3.0.0")]),
        published("lib-a", "1.0.0", vec![("lib-b", "<2.0.0")]),
        published("lib-b", "3.0.0", vec![("lib-c", "*")]),
        published("lib-b", "2.0.0", vec![("lib-c", "<2.0.0")]),
        published("lib-b", "1.0.0", vec![]),
        published("lib-c", "2.0.0", vec![]),
        published("lib-c", "1.0.0", vec![]),
        published("lib-d", "1.0.0", vec![("lib-e", "*")]),
        published("lib-e", "1.0.0", vec![("lib-a", "<3.0.0"), ("lib-c", "*")]),
    ]);
    let root = pkg1(vec![remote("lib-a", "*"), remote("lib-d", "*")]);
    let (graph, _) = world.resolve(&root, None, NetworkMode::Online);
    let graph = graph.unwrap();
    for details in graph.ordered_dependencies().unwrap() {
        let v = details.node.resolved_version.as_ref().unwrap();
        assert!(details.node.version.matches(v));
        let m = world.manifest_of(details.name.as_str(), &v.to_text());
        for dependency in m.dependencies.unwrap() {
            let node = graph.nodes.get(&dependency.package).unwrap();
            match &dependency.manifest {
                DependencyManifest::Remote(r) => {
                    assert!(r.version.matches(node.resolved_version.as_ref().unwrap()))
                }
                DependencyManifest::Local(_) => panic!("a local dependency"),
            }
        }
    }
    assert_eq!(pick(&graph, "lib-a").unwrap(), "2.0.0");
    assert_eq!(pick(&graph, "lib-b").unwrap(), "2.0.0");
    assert_eq!(pick(&graph, "lib-c").unwrap(), "1.0.0");
}

#[test]
fn requirement_of_a_dropped_package_causes_no_conflict() {
    let world = World::of(vec![
        published("p", "3.0.0", vec![("x", "*")]),
        published("p", "2.0.0", vec![]),
        published("p", "1.0.0", vec![]),
        published("x", "1.0.0", vec![("p", "<2.0.0")]),
        published("m", "1.0.0", vec![("n", "*")]),
        published("n", "1.0.0", vec![("o", "*")]),
        published("o", "1.0.0", vec![("p", ">=2.0.0, <3.0.0")]),
    ]);
    let root = pkg1(vec![remote("p", "*"), remote("m", "*")]);
    let (graph, log) = world.resolve(&root, None, NetworkMode::Online);
    let graph = graph.unwrap();
    assert_eq!(pick(&graph, "p").unwrap(), "2.0.0");
    assert!(pick(&graph, "x").is_none());
    assert_eq!(graph.nodes.len(), 4);
    assert!(log.contains(&"download p@1.0.0".to_string()));
}

#[test]
fn conflict_names_only_what_is_still_asked_for() {
    let world = World::of(vec![
        published("p", "3.0.0", vec![("x", "*")]),
        published("p", "1.0.0", vec![]),
        published("x", "1.0.0", vec![("p", "<2.0.0")]),
        published("m", "1.0.0", vec![("n", "*")]),
        published("n", "1.0.0", vec![("o", "*")]),
        published("o", "1.0.0", vec![("p", ">=2.0.0, <3.0.0")]),
    ]);
    let root = pkg1(vec![remote("p", "*"), remote("m", "*")]);
    let (graph, _) = world.resolve(&root, None, NetworkMode::Online);
    assert_eq!(
        graph.err().unwrap().message(),
        "no version of p satisfies all requirements: [*, >=2.0.0, <3.0.0]; \
         available versions: [3.0.0, 1.0.0]"
    );
}
