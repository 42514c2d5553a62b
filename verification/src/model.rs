//! What the state of a resolution is, and what each of its operations makes of it.
use crate::error::ErrorView;
use crate::graph::{NodeView, SourceView};
use crate::lockfile::{FileView, LockedView};
use crate::manifest::{DependencyManifestView, DependencyView, ManifestView};
use crate::package::{Name, NetworkMode, PackageType};
use crate::version::VersionView;
use vstd::prelude::*;

verus! {

/// A requirement on a package: who asks, and for which versions.
pub struct EdgeView {
    /// The package that asks, or `None` for the root manifest
    pub from: Option<Name>,
    /// The requirement
    pub req: Seq<char>,
}

/// The state of a resolution.
#[verifier::ext_equal]
pub struct BuilderView {
    /// The packages that are resolved
    pub nodes: Map<Name, NodeView>,
    /// The requirements on each package
    pub requirements: Map<Name, Seq<EdgeView>>,
    /// Where each package was first seen
    pub sources: Map<Name, SourceView>,
    /// The packages that are to be resolved, or resolved again
    pub worklist: Seq<Name>,
    /// The directory that local paths are relative to
    pub base_path: Seq<Seq<char>>,
    /// The type of the package that the root manifest is of
    pub root_package_type: Option<PackageType>,
    /// The pins of the lockfile, if there is one
    pub lockfile: Option<Seq<LockedView>>,
    /// Whether the network may be used
    pub network_mode: NetworkMode,
}

/// The requirement texts of a list of edges.
pub open spec fn edge_reqs(edges: Seq<EdgeView>) -> Seq<Seq<char>> {
    edges.map_values(|e: EdgeView| e.req)
}

/// The requirements on a package.
pub open spec fn edges_of(b: BuilderView, name: Name) -> Seq<EdgeView> {
    if b.requirements.contains_key(name) {
        b.requirements[name]
    } else {
        seq![]
    }
}

/// Whether a package has no node yet, or a version that some requirement on it does not admit.
pub open spec fn needs_visit(b: BuilderView, name: Name) -> bool {
    if b.nodes.contains_key(name) {
        match b.nodes[name].resolved_version {
            None => false,
            Some(v) => !(b.requirements.contains_key(name) && crate::pick::satisfies_all(
                edge_reqs(b.requirements[name]),
                v,
            )),
        }
    } else {
        true
    }
}

/// Where a dependency is to be had, seen from the directory `base`.
pub open spec fn source_of(base: Seq<Seq<char>>, dependency: DependencyView) -> SourceView {
    match dependency.manifest {
        DependencyManifestView::Local { path } => SourceView::Local { path: base.push(path) },
        DependencyManifestView::Remote { registry, repository, version } => SourceView::Remote {
            registry,
            repository,
        },
    }
}

/// The versions that a dependency asks for: any, of a local package.
pub open spec fn requirement_of(dependency: DependencyView) -> Seq<char> {
    match dependency.manifest {
        DependencyManifestView::Local { path } => crate::version::star_text(),
        DependencyManifestView::Remote { registry, repository, version } => version,
    }
}

/// Whether two sources are both local or both remote.
pub open spec fn same_kind(a: SourceView, b: SourceView) -> bool {
    a is Local == b is Local
}

/// Whether a dependency is local where the package was seen as remote, or the other way round.
pub open spec fn conflicts(b: BuilderView, dependency: DependencyView) -> bool {
    b.sources.contains_key(dependency.package) && !same_kind(
        b.sources[dependency.package],
        source_of(b.base_path, dependency),
    )
}

/// The state with the requirement of `dependency` recorded, and its source if the package is new.
pub open spec fn with_requirement(
    b: BuilderView,
    parent: Option<Name>,
    dependency: DependencyView,
) -> BuilderView {
    let name = dependency.package;
    BuilderView {
        sources: if b.sources.contains_key(name) {
            b.sources
        } else {
            b.sources.insert(name, source_of(b.base_path, dependency))
        },
        requirements: b.requirements.insert(
            name,
            edges_of(b, name).push(EdgeView { from: parent, req: requirement_of(dependency) }),
        ),
        ..b
    }
}

/// The state with `name` at the end of the worklist, if it needs a visit and is not in the
/// worklist.
pub open spec fn with_visit(b: BuilderView, name: Name) -> BuilderView {
    if needs_visit(b, name) && !b.worklist.contains(name) {
        BuilderView { worklist: b.worklist.push(name), ..b }
    } else {
        b
    }
}

/// The state with an edge from `parent` to a dependency.
pub open spec fn with_edge(
    b: BuilderView,
    parent: Option<Name>,
    dependency: DependencyView,
) -> BuilderView {
    with_visit(with_requirement(b, parent, dependency), dependency.package)
}

/// The state with an edge from `parent` to each dependency, one after the other.
pub open spec fn with_edges(
    b: BuilderView,
    parent: Option<Name>,
    dependencies: Seq<DependencyView>,
) -> BuilderView
    decreases dependencies.len(),
{
    if dependencies.len() == 0 {
        b
    } else {
        with_edge(
            with_edges(b, parent, dependencies.drop_last()),
            parent,
            dependencies.last(),
        )
    }
}

/// Whether the dependency at `k` is the first that conflicts when each gets its edge.
pub open spec fn first_conflict(
    b: BuilderView,
    parent: Option<Name>,
    dependencies: Seq<DependencyView>,
    k: int,
) -> bool {
    &&& 0 <= k < dependencies.len()
    &&& conflicts(with_edges(b, parent, dependencies.take(k)), dependencies[k])
    &&& forall|j: int|
        0 <= j < k ==> !conflicts(
            with_edges(b, parent, #[trigger] dependencies.take(j)),
            dependencies[j],
        )
}

/// Whether no dependency conflicts when each gets its edge.
pub open spec fn no_conflict(
    b: BuilderView,
    parent: Option<Name>,
    dependencies: Seq<DependencyView>,
) -> bool {
    forall|j: int|
        0 <= j < dependencies.len() ==> !conflicts(
            with_edges(b, parent, #[trigger] dependencies.take(j)),
            dependencies[j],
        )
}

/// Whether `e` reports the first dependency that conflicts, and `after` has the edges before it.
pub open spec fn conflict_reported(
    before: BuilderView,
    parent: Option<Name>,
    dependencies: Seq<DependencyView>,
    after: BuilderView,
    e: ErrorView,
) -> bool {
    exists|k: int| #[trigger]
        first_conflict(before, parent, dependencies, k) && after
            == with_edges(before, parent, dependencies.take(k)) && e == (
        ErrorView::LocalRemoteConflict { package: dependencies[k].package })
}

/// The names of the packages that are depended on.
pub open spec fn names_of(dependencies: Seq<DependencyView>) -> Seq<Name> {
    dependencies.map_values(|d: DependencyView| d.package)
}

/// Whether the root manifest requires a package.
pub open spec fn is_root(b: BuilderView, name: Name) -> bool {
    b.requirements.contains_key(name) && has_edge_from(b.requirements[name], None)
}

/// Whether some edge comes from `from`.
pub open spec fn has_edge_from(edges: Seq<EdgeView>, from: Option<Name>) -> bool {
    exists|k: int| 0 <= k < edges.len() && (#[trigger] edges[k]).from == from
}

/// Whether the package `a`, as it is resolved, leads to another package: it depends on that
/// package, and the requirement is recorded.
pub open spec fn leads(b: BuilderView, a: Name, name: Name) -> bool {
    &&& a != name
    &&& crate::graph::depends(b.nodes, a, name)
    &&& b.requirements.contains_key(name)
    &&& has_edge_from(b.requirements[name], Some(a))
}

/// Whether `path` leads from a package that the root manifest requires, from each package to the
/// next, and not on from the package `without`.
pub open spec fn is_chain(b: BuilderView, without: Option<Name>, path: Seq<Name>) -> bool {
    &&& path.len() > 0
    &&& is_root(b, path[0])
    &&& forall|i: int|
        0 <= i < path.len() - 1 ==> without != Some(#[trigger] path[i]) && leads(
            b,
            path[i],
            path[i + 1],
        )
}

/// Whether the root manifest leads to a package, not on from the package `without`.
pub open spec fn is_reached(b: BuilderView, without: Option<Name>, name: Name) -> bool {
    exists|path: Seq<Name>| #[trigger] is_chain(b, without, path) && path.last() == name
}

/// Whether the root manifest does not lead to a required package when the contributions of `parent`
/// are retracted.
pub open spec fn is_dropped(b: BuilderView, parent: Name, name: Name) -> bool {
    b.requirements.contains_key(name) && name != parent && !is_reached(b, Some(parent), name)
}

/// Whether an edge goes when the contributions of `parent` are retracted: one that comes from
/// `parent`, or from a package that is dropped.
pub open spec fn is_retracted(b: BuilderView, parent: Name, edge: EdgeView) -> bool {
    edge.from matches Some(p) && (p == parent || is_dropped(b, parent, p))
}

/// The requirements on a package that stay when the contributions of `parent` are retracted: those
/// on `parent` itself all do.
pub open spec fn kept_edges(b: BuilderView, parent: Name, name: Name) -> Seq<EdgeView> {
    if name == parent {
        b.requirements[name]
    } else {
        b.requirements[name].filter(|e: EdgeView| !is_retracted(b, parent, e))
    }
}

/// The state with the contributions of `parent` retracted, and without the packages that the root
/// manifest does not lead to then.
pub open spec fn retracted(b: BuilderView, parent: Name) -> BuilderView {
    BuilderView {
        nodes: Map::new(
            |n: Name| b.nodes.contains_key(n) && !is_dropped(b, parent, n),
            |n: Name| b.nodes[n],
        ),
        sources: Map::new(
            |n: Name| b.sources.contains_key(n) && !is_dropped(b, parent, n),
            |n: Name| b.sources[n],
        ),
        requirements: Map::new(
            |n: Name| b.requirements.contains_key(n) && !is_dropped(b, parent, n),
            |n: Name| kept_edges(b, parent, n),
        ),
        ..b
    }
}

/// Whether a package stays, has lost a requirement, and needs a visit when the contributions of
/// `parent` are retracted.
pub open spec fn is_unsettled(b: BuilderView, parent: Name, name: Name) -> bool {
    &&& retracted(b, parent).requirements.contains_key(name)
    &&& retracted(b, parent).requirements[name] != b.requirements[name]
    &&& needs_visit(retracted(b, parent), name)
}

/// Whether every package but `except` that needs a visit is in the worklist.
pub open spec fn is_scheduled(b: BuilderView, except: Option<Name>) -> bool {
    forall|n: Name| #[trigger]
        b.requirements.contains_key(n) && except != Some(n) && needs_visit(b, n)
            ==> b.worklist.contains(n)
}

/// The type of the package that an edge comes from.
pub open spec fn parent_type(b: BuilderView, from: Option<Name>) -> Option<PackageType> {
    match from {
        None => b.root_package_type,
        Some(p) => if b.nodes.contains_key(p) {
            b.nodes[p].package_type
        } else {
            None
        },
    }
}

/// Whether the edge at `k` on an api package is the first that comes from a lib package.
pub open spec fn first_lib_edge(b: BuilderView, name: Name, k: int) -> bool {
    &&& 0 <= k < edges_of(b, name).len()
    &&& parent_type(b, edges_of(b, name)[k].from) == Some(PackageType::Lib)
    &&& forall|j: int|
        0 <= j < k ==> parent_type(b, (#[trigger] edges_of(b, name)[j]).from) != Some(
            PackageType::Lib,
        )
}

/// Whether a package would be an api package that a lib package depends on.
pub open spec fn lib_depends_on_api(
    b: BuilderView,
    name: Name,
    package_type: Option<PackageType>,
) -> bool {
    package_type == Some(PackageType::Api) && exists|k: int|
        0 <= k < edges_of(b, name).len() && parent_type(
            b,
            (#[trigger] edges_of(b, name)[k]).from,
        ) == Some(PackageType::Lib)
}

/// Whether `e` reports the first edge on an api package that comes from a lib package. The root
/// package goes by the name `parent`.
pub open spec fn lib_edge_reported(b: BuilderView, name: Name, e: ErrorView) -> bool {
    exists|k: int| #[trigger]
        first_lib_edge(b, name, k) && e == (ErrorView::InvalidPackageTypeDependency {
            parent: match edges_of(b, name)[k].from {
                Some(parent) => parent,
                None => "parent"@,
            },
            dependency: name,
        })
}

/// Whether a package is to be resolved, or resolved again.
pub open spec fn is_due(b: BuilderView, name: Name) -> bool {
    b.requirements.contains_key(name) && needs_visit(b, name)
}

/// Whether the package at `k` is the first in the worklist that is due.
pub open spec fn next_due(b: BuilderView, k: int) -> bool {
    &&& 0 <= k < b.worklist.len()
    &&& is_due(b, b.worklist[k])
    &&& forall|j: int| 0 <= j < k ==> !is_due(b, #[trigger] b.worklist[j])
}

/// Whether no package in the worklist is due.
pub open spec fn none_due(b: BuilderView) -> bool {
    forall|j: int| 0 <= j < b.worklist.len() ==> !is_due(b, #[trigger] b.worklist[j])
}

/// The state without the first `k` packages of the worklist.
pub open spec fn popped(b: BuilderView, k: int) -> BuilderView {
    BuilderView { worklist: b.worklist.skip(k), ..b }
}

/// What of a state changes in the course of a resolution, and tells one state from another: its
/// nodes, requirements, sources and worklist. How often a requirement was recorded, and in which
/// order, plays no part.
#[verifier::ext_equal]
pub struct CourseView {
    pub nodes: Map<Name, NodeView>,
    pub requirements: Map<Name, Set<EdgeView>>,
    pub sources: Map<Name, SourceView>,
    pub worklist: Seq<Name>,
}

/// What tells a state from another.
pub open spec fn course_of(b: BuilderView) -> CourseView {
    CourseView {
        nodes: b.nodes,
        requirements: b.requirements.map_values(|edges: Seq<EdgeView>| edges.to_set()),
        sources: b.sources,
        worklist: b.worklist,
    }
}

/// Whether some of the first `end` packages in the worklist is due.
pub open spec fn has_due_before(b: BuilderView, end: int) -> bool {
    exists|j: int| 0 <= j < end && is_due(b, #[trigger] b.worklist[j])
}

/// The state with a package at the end of the worklist.
pub open spec fn put_off(b: BuilderView, name: Name) -> BuilderView {
    BuilderView { worklist: b.worklist.push(name), ..b }
}

/// The state with the packages from `start` to `end` of the worklist behind all others.
pub open spec fn behind(b: BuilderView, start: int, end: int) -> BuilderView {
    BuilderView {
        worklist: b.worklist.take(start) + b.worklist.skip(end) + b.worklist.subrange(start, end),
        ..b
    }
}

/// Whether a requirement on a package is still asked for: by the root manifest, or by a package
/// that is resolved and depends on it.
pub open spec fn is_live(b: BuilderView, name: Name, edge: EdgeView) -> bool {
    edge.from matches Some(p) ==> crate::graph::depends(b.nodes, p, name)
}

/// Whether a requirement on a package is recorded, and still asked for.
pub open spec fn is_still_asked(b: BuilderView, name: Name, req: Seq<char>) -> bool {
    exists|j: int|
        0 <= j < b.requirements[name].len() && is_live(
            b,
            name,
            #[trigger] b.requirements[name][j],
        ) && b.requirements[name][j].req == req
}

/// Whether an error reports a required package of which no published version meets requirements
/// that are all still asked for.
pub open spec fn is_conflict(b: BuilderView, e: ErrorView) -> bool {
    match e {
        ErrorView::NoCompatibleVersion { package, requirements, available_versions } => {
            &&& b.requirements.contains_key(package)
            &&& crate::pick::is_pick(available_versions, requirements, None)
            &&& forall|i: int|
                0 <= i < requirements.len() ==> is_still_asked(
                    b,
                    package,
                    #[trigger] requirements[i],
                )
        },
        _ => false,
    }
}

/// Whether the package of a conflict has the same requirements in another state.
pub open spec fn is_untouched(b: BuilderView, after: BuilderView, e: ErrorView) -> bool {
    let package = e->NoCompatibleVersion_package;
    after.requirements.contains_key(package) && after.requirements[package]
        == b.requirements[package]
}

/// The requirements on a package that are still asked for.
pub open spec fn live_edges(b: BuilderView, name: Name) -> Seq<EdgeView> {
    b.requirements[name].filter(|e: EdgeView| is_live(b, name, e))
}

/// The state without the requirements on a package that are no longer asked for, unless no other is
/// left.
pub open spec fn pruned(b: BuilderView, name: Name) -> BuilderView {
    if live_edges(b, name).len() > 0 {
        BuilderView { requirements: b.requirements.insert(name, live_edges(b, name)), ..b }
    } else {
        b
    }
}

/// The state in which a version of a package is chosen: where no published version meets every
/// requirement on it, those that are no longer asked for do not count.
pub open spec fn reconsidered(
    b: BuilderView,
    name: Name,
    versions: Seq<VersionView>,
) -> BuilderView {
    if crate::pick::is_pick(versions, edge_reqs(b.requirements[name]), None) {
        pruned(b, name)
    } else {
        b
    }
}

/// The node of a local package.
pub open spec fn local_node(name: Name, path: Seq<Seq<char>>, manifest: ManifestView) -> NodeView {
    NodeView {
        name,
        package_type: manifest.package_type,
        source: SourceView::Local { path },
        dependencies: manifest.dependency_names(),
        version: crate::version::star_text(),
        resolved_version: None,
    }
}

/// The node of a remote package.
pub open spec fn remote_node(
    name: Name,
    registry: Seq<char>,
    repository: Seq<char>,
    chosen: VersionView,
    manifest: ManifestView,
) -> NodeView {
    NodeView {
        name,
        package_type: manifest.package_type,
        source: SourceView::Remote { registry, repository },
        dependencies: manifest.dependency_names(),
        version: crate::version::exact_text(chosen),
        resolved_version: Some(chosen),
    }
}

/// The dependency on a package at one version.
pub open spec fn pinned_dependency(
    name: Name,
    registry: Seq<char>,
    repository: Seq<char>,
    chosen: VersionView,
) -> DependencyView {
    DependencyView {
        package: name,
        manifest: DependencyManifestView::Remote {
            registry,
            repository,
            version: crate::version::exact_text(chosen),
        },
    }
}

/// The state with a node.
pub open spec fn with_node(b: BuilderView, name: Name, node: NodeView) -> BuilderView {
    BuilderView { nodes: b.nodes.insert(name, node), ..b }
}

/// The state at another directory.
pub open spec fn at_path(b: BuilderView, base_path: Seq<Seq<char>>) -> BuilderView {
    BuilderView { base_path, ..b }
}

/// The state before the first edge.
pub open spec fn initial(
    base_path: Seq<Seq<char>>,
    root_package_type: Option<PackageType>,
    lockfile: Option<Seq<LockedView>>,
    network_mode: NetworkMode,
) -> BuilderView {
    BuilderView {
        nodes: Map::empty(),
        requirements: Map::empty(),
        sources: Map::empty(),
        worklist: seq![],
        base_path,
        root_package_type,
        lockfile,
        network_mode,
    }
}

/// Whether a node is what resolution makes of a package: a local one has no version, and a remote
/// one pins the version that was chosen.
pub open spec fn node_is_pinned(name: Name, node: NodeView) -> bool {
    &&& node.name == name
    &&& match node.source {
        SourceView::Local { path } => node.resolved_version is None && node.version
            == crate::version::star_text(),
        SourceView::Remote { registry, repository } => node.resolved_version matches Some(v)
            && node.version == crate::version::exact_text(v),
    }
}

/// What holds of every state: a package has a source if and only if it has requirements, of which
/// there is one at least; packages with a node have requirements; no package is in the worklist
/// twice; each node pins the version that was chosen.
pub open spec fn is_consistent(b: BuilderView) -> bool {
    &&& b.sources.dom() == b.requirements.dom()
    &&& forall|n: Name| #[trigger]
        b.requirements.contains_key(n) ==> b.requirements[n].len() > 0
    &&& forall|n: Name| #[trigger]
        b.nodes.contains_key(n) ==> b.requirements.contains_key(n) && node_is_pinned(
            n,
            b.nodes[n],
        )
    &&& b.worklist.no_duplicates()
}

/// What a resolution needs to know of a package.
pub enum PlanView {
    ReadManifest { path: Seq<Seq<char>> },
    Fetch { registry: Seq<char>, repository: Seq<char>, version: VersionView, file: FileView },
    ListVersions { registry: Seq<char>, repository: Seq<char> },
}

/// Whether the pin at `i` is the one to use for a package, and its file came from the registry.
pub open spec fn is_usable_pin(b: BuilderView, name: Name, registry: Seq<char>, i: int) -> bool {
    b.lockfile matches Some(pins) && crate::lockfile::is_pin(
        pins,
        name,
        edge_reqs(edges_of(b, name)),
        i,
    ) && registry.is_prefix_of(pins[i].file.url)
}

/// Whether `plan` is what a remote package calls for: the pin to use, or the published versions if
/// and only if there is none.
pub open spec fn is_remote_plan(
    b: BuilderView,
    name: Name,
    registry: Seq<char>,
    repository: Seq<char>,
    plan: PlanView,
) -> bool {
    match plan {
        PlanView::ReadManifest { path } => false,
        PlanView::Fetch { registry: from, repository: within, version, file } => {
            &&& from == registry
            &&& within == repository
            &&& exists|i: int| #[trigger]
                is_usable_pin(b, name, registry, i) && version == b.lockfile->0[i].version && file
                    == b.lockfile->0[i].file
        },
        PlanView::ListVersions { registry: from, repository: within } => {
            &&& from == registry
            &&& within == repository
            &&& b.lockfile matches Some(pins) ==> forall|i: int| #[trigger]
                crate::lockfile::is_last_pin(pins, name, edge_reqs(edges_of(b, name)), i)
                    ==> !registry.is_prefix_of(pins[i].file.url)
        },
    }
}

/// Whether `plan` is what a package calls for.
pub open spec fn is_plan(b: BuilderView, name: Name, plan: PlanView) -> bool {
    match b.sources[name] {
        SourceView::Local { path } => plan == (PlanView::ReadManifest { path }),
        SourceView::Remote { registry, repository } => is_remote_plan(
            b,
            name,
            registry,
            repository,
            plan,
        ),
    }
}

/// Whether a package is resolved to the version `chosen`.
pub open spec fn is_resolved_to(b: BuilderView, name: Name, chosen: VersionView) -> bool {
    b.nodes.contains_key(name) && b.nodes[name].resolved_version == Some(chosen)
}

/// The state in which a package can take another version: what the last one contributed is
/// retracted.
pub open spec fn made_way(b: BuilderView, name: Name) -> BuilderView {
    if b.nodes.contains_key(name) {
        retracted(b, name)
    } else {
        b
    }
}

/// The state with a node, and the edges of its manifest, whose local paths are relative to `base`.
pub open spec fn walked(
    b: BuilderView,
    name: Name,
    node: NodeView,
    base: Seq<Seq<char>>,
    manifest: ManifestView,
) -> BuilderView {
    at_path(
        with_edges(at_path(with_node(b, name, node), base), Some(name), manifest.dependencies),
        b.base_path,
    )
}

/// Whether walking a manifest ends in `error` and the state `after`: an api package that a lib
/// package depends on is not recorded; the edges are, up to the first that conflicts.
pub open spec fn is_walk_of(
    b: BuilderView,
    name: Name,
    node: NodeView,
    base: Seq<Seq<char>>,
    manifest: ManifestView,
    error: Option<ErrorView>,
    after: BuilderView,
) -> bool {
    let entered = at_path(with_node(b, name, node), base);
    if lib_depends_on_api(b, name, manifest.package_type) {
        error matches Some(e) && lib_edge_reported(b, name, e) && after == b
    } else if no_conflict(entered, Some(name), manifest.dependencies) {
        error is None && after == walked(b, name, node, base, manifest)
    } else {
        error matches Some(e) && exists|last: BuilderView| #[trigger]
            conflict_reported(entered, Some(name), manifest.dependencies, last, e) && after
                == at_path(last, b.base_path)
    }
}

} // verus!
