//! The resolution of a dependency graph.
use crate::error::{DependencyError, ErrorView};
use crate::graph::{DependencySource, MetadataMap};
use crate::lockfile::Lockfile;
use crate::manifest::{Dependency, DependencyManifest, PackagesManifest};
use crate::model::{BuilderView, EdgeView};
use crate::package::{Kept, NameMap, NetworkMode, PackageName, PackageType};
use crate::version::{Version, VersionReq};
use std::collections::VecDeque;
use vstd::prelude::*;

pub mod resolution;
mod retraction;

verus! {

broadcast use crate::text::group_lists;

/// A single edge contributing a `VersionReq` to a package's accumulated set.
#[derive(Debug)]
pub struct RequirementEdge {
    /// The contributing parent package, or `None` for a root manifest edge.
    from: Option<PackageName>,
    /// The version requirement carried by this edge. `*` for locals.
    req: VersionReq,
}

impl View for RequirementEdge {
    type V = EdgeView;

    closed spec fn view(&self) -> EdgeView {
        EdgeView { from: crate::text::opt_view(self.from), req: self.req@ }
    }
}

impl RequirementEdge {
    /// Whether this edge comes from the package `name`.
    fn comes_from(&self, name: &PackageName) -> (r: bool)
        ensures
            r == (self@.from == Some(name@)),
    {
        match &self.from {
            Some(parent) => parent.same(name),
            None => false,
        }
    }
}

/// The edges on a package, in the order in which they were added.
#[derive(Debug)]
pub struct EdgeList {
    edges: Vec<RequirementEdge>,
}

impl View for EdgeList {
    type V = Seq<EdgeView>;

    closed spec fn view(&self) -> Seq<EdgeView> {
        crate::text::views(self.edges@)
    }
}

impl EdgeList {
    /// The requirements of the edges.
    fn reqs(&self) -> (r: Vec<VersionReq>)
        ensures
            crate::text::views(r@) == crate::model::edge_reqs(self@),
    {
        let mut r: Vec<VersionReq> = Vec::new();
        let ghost all = crate::model::edge_reqs(self@);
        for i in 0..self.edges.len()
            invariant
                all == crate::model::edge_reqs(self@),
                crate::text::views(r@) =~= all.take(i as int),
        {
            r.push(self.edges[i].req.clone());
            assert(all[i as int] == self@[i as int].req);
        }
        assert(crate::text::views(r@) =~= all);
        r
    }

    /// Whether each edge admits `version`.
    fn all_match(&self, version: &Version) -> (r: bool)
        ensures
            r == crate::pick::satisfies_all(crate::model::edge_reqs(self@), version@),
    {
        let ghost all = crate::model::edge_reqs(self@);
        for i in 0..self.edges.len()
            invariant
                all == crate::model::edge_reqs(self@),
                forall|j: int|
                    0 <= j < i ==> crate::version::satisfies(#[trigger] all[j], version@),
        {
            assert(all[i as int] == self@[i as int].req);
            if !self.edges[i].req.matches(version) {
                return false;
            }
        }
        true
    }

    /// Whether some edge comes from the package `name`.
    fn has_edge_from(&self, name: &PackageName) -> (r: bool)
        ensures
            r == crate::model::has_edge_from(self@, Some(name@)),
    {
        for i in 0..self.edges.len()
            invariant
                forall|j: int| 0 <= j < i ==> (#[trigger] self@[j]).from != Some(name@),
        {
            if self.edges[i].comes_from(name) {
                assert(self@[i as int].from == Some(name@));
                return true;
            }
            assert(self@[i as int] == self.edges@[i as int]@);
        }
        false
    }

    /// Whether some edge comes from the root manifest.
    fn has_root_edge(&self) -> (r: bool)
        ensures
            r == crate::model::has_edge_from(self@, None),
    {
        for i in 0..self.edges.len()
            invariant
                forall|j: int| 0 <= j < i ==> (#[trigger] self@[j]).from is Some,
        {
            if self.edges[i].from.is_none() {
                assert(self@[i as int].from is None);
                return true;
            }
            assert(self@[i as int] == self.edges@[i as int]@);
        }
        false
    }
}

impl Kept for EdgeList {
    open spec fn alike(a: Seq<EdgeView>, b: Seq<EdgeView>) -> bool {
        a.to_set() == b.to_set()
    }

    fn copy(&self) -> (r: Self) {
        let mut edges: Vec<RequirementEdge> = Vec::new();
        for i in 0..self.edges.len()
            invariant
                crate::text::views(edges@) =~= self@.take(i as int),
        {
            let edge = &self.edges[i];
            edges.push(
                RequirementEdge {
                    from: match &edge.from {
                        Some(name) => Some(name.clone()),
                        None => None,
                    },
                    req: edge.req.clone(),
                },
            );
            assert(self@[i as int] == edge@);
        }
        assert(crate::text::views(edges@) =~= self@);
        EdgeList { edges }
    }

    fn is_like(&self, other: &Self) -> (r: bool) {
        let r = self.holds_all_of(other) && other.holds_all_of(self);
        proof {
            assert forall|e: EdgeView| #[trigger] self@.to_set().contains(e) == self@.contains(
                e,
            ) by {}
            assert forall|e: EdgeView| #[trigger] other@.to_set().contains(e) == other@.contains(
                e,
            ) by {}
            if r {
                assert(self@.to_set() =~= other@.to_set());
            }
            if self@.to_set() == other@.to_set() {
                assert forall|i: int| 0 <= i < self@.len() implies other@.contains(
                    #[trigger] self@[i],
                ) by {
                    assert(self@.to_set().contains(self@[i]));
                }
                assert forall|i: int| 0 <= i < other@.len() implies self@.contains(
                    #[trigger] other@[i],
                ) by {
                    assert(other@.to_set().contains(other@[i]));
                }
            }
        }
        r
    }
}

impl EdgeList {
    /// Whether this list holds every edge of another.
    fn holds_all_of(&self, other: &EdgeList) -> (r: bool)
        ensures
            r == forall|i: int| 0 <= i < other@.len() ==> self@.contains(#[trigger] other@[i]),
    {
        for i in 0..other.edges.len()
            invariant
                forall|j: int| 0 <= j < i ==> self@.contains(#[trigger] other@[j]),
        {
            assert(other@[i as int] == other.edges@[i as int]@);
            if !self.holds(&other.edges[i]) {
                return false;
            }
        }
        true
    }

    /// Whether this list holds an edge.
    fn holds(&self, edge: &RequirementEdge) -> (r: bool)
        ensures
            r == self@.contains(edge@),
    {
        for i in 0..self.edges.len()
            invariant
                forall|j: int| 0 <= j < i ==> #[trigger] self@[j] != edge@,
        {
            let mine = &self.edges[i];
            assert(self@[i as int] == mine@);
            let from_same = match (&mine.from, &edge.from) {
                (Some(a), Some(b)) => a.same(b),
                (None, None) => true,
                _ => false,
            };
            if from_same && mine.req.same(&edge.req) {
                return true;
            }
        }
        false
    }
}

/// Builder for constructing the dependency graph
#[derive(Debug)]
pub struct GraphBuilder {
    nodes: MetadataMap,
    /// Per-package accumulated requirement edges.
    requirements: NameMap<EdgeList>,
    /// First-seen source for each package, used to detect local/remote conflicts.
    sources: NameMap<DependencySource>,
    /// FIFO of package names whose resolution must be (re-)attempted.
    worklist: VecDeque<PackageName>,
    base_path: Vec<String>,
    /// Package type of the root manifest, used as the parent type for root edges.
    root_package_type: Option<PackageType>,
    lockfile: Option<Lockfile>,
    network_mode: NetworkMode,
}

impl View for GraphBuilder {
    type V = BuilderView;

    closed spec fn view(&self) -> BuilderView {
        BuilderView {
            nodes: self.nodes@,
            requirements: self.requirements@,
            sources: self.sources@,
            worklist: crate::text::views(self.worklist@),
            base_path: crate::text::views(self.base_path@),
            root_package_type: self.root_package_type,
            lockfile: crate::text::opt_view(self.lockfile),
            network_mode: self.network_mode,
        }
    }
}

impl GraphBuilder {
    closed spec fn maps_wf(self) -> bool {
        self.nodes.wf() && self.requirements.wf() && self.sources.wf()
    }

    /// What holds of every builder.
    pub closed spec fn wf(self) -> bool {
        self.maps_wf() && crate::model::is_consistent(self@)
    }

    /// What holds of every builder holds of what it stands for.
    pub proof fn lemma_wf(self)
        requires
            self.wf(),
        ensures
            crate::model::is_consistent(self@),
    {
    }

    /// A builder without edges.
    pub fn new(
        base_path: Vec<String>,
        root_package_type: Option<PackageType>,
        lockfile: Option<Lockfile>,
        network_mode: NetworkMode,
    ) -> (r: Self)
        ensures
            r.wf(),
            r@ == crate::model::initial(
                crate::text::views(base_path@),
                root_package_type,
                crate::text::opt_view(lockfile),
                network_mode,
            ),
    {
        let r = GraphBuilder {
            nodes: NameMap::new(),
            requirements: NameMap::new(),
            sources: NameMap::new(),
            worklist: VecDeque::new(),
            base_path,
            root_package_type,
            lockfile,
            network_mode,
        };
        assert(crate::text::views(r.worklist@) =~= seq![]);
        assert(r.sources@.dom() =~= r.requirements@.dom());
        r
    }

    /// True when `name` has no node yet, or its resolved version no longer
    /// satisfies the (possibly just-extended) requirement set.
    ///
    /// Only packages that need a visit are scheduled: a back-edge into an
    /// already-inserted node that it fits schedules no further work.
    pub fn needs_visit(&self, name: &PackageName) -> (r: bool)
        requires
            self.wf(),
        ensures
            r == crate::model::needs_visit(self@, name@),
    {
        self.visit_needed(name)
    }

    fn visit_needed(&self, name: &PackageName) -> (r: bool)
        requires
            self.maps_wf(),
        ensures
            r == crate::model::needs_visit(self@, name@),
    {
        match self.nodes.get(name) {
            None => true,
            Some(node) => match &node.resolved_version {
                // Locals carry no version; once resolved they never need revisiting.
                None => false,
                Some(version) => match self.requirements.get(name) {
                    Some(edges) => !edges.all_match(version),
                    None => true,
                },
            },
        }
    }

    /// Whether the worklist holds `name`.
    fn is_in_worklist(&self, name: &PackageName) -> (r: bool)
        ensures
            r == self@.worklist.contains(name@),
    {
        let ghost all = self@.worklist;
        for i in 0..self.worklist.len()
            invariant
                all == crate::text::views(self.worklist@),
                forall|j: int| 0 <= j < i ==> #[trigger] all[j] != name@,
        {
            if self.worklist[i].same(name) {
                assert(all[i as int] == name@);
                return true;
            }
            assert(all[i as int] == self.worklist@[i as int]@);
        }
        false
    }

    /// Puts `name` at the end of the worklist, if it needs a visit and is not there.
    fn schedule(&mut self, name: &PackageName)
        requires
            old(self).maps_wf(),
        ensures
            final(self).maps_wf(),
            final(self)@ == crate::model::with_visit(old(self)@, name@),
    {
        if self.visit_needed(name) && !self.is_in_worklist(name) {
            self.worklist.push_back(name.clone());
        }
    }

    /// Whether a package was first seen where it is now required from, as far as local and remote
    /// sources go.
    pub fn ensure_source_kinds_match(
        name: &PackageName,
        existing: &DependencySource,
        new_kind: &DependencySource,
    ) -> (r: Result<(), DependencyError>)
        ensures
            r is Ok == crate::model::same_kind(existing@, new_kind@),
            r matches Err(e) ==> e@ == (ErrorView::LocalRemoteConflict { package: name@ }),
    {
        let mismatch = match (existing, new_kind) {
            (DependencySource::Local { .. }, DependencySource::Remote { .. }) => true,
            (DependencySource::Remote { .. }, DependencySource::Local { .. }) => true,
            _ => false,
        };
        if mismatch {
            return Err(DependencyError::LocalRemoteConflict { package: name.clone() });
        }
        Ok(())
    }

    /// Records a requirement edge from `parent` (None = root manifest) to
    /// `dependency`, scheduling the dependency if it needs (re-)resolution.
    pub fn add_edge(
        &mut self,
        parent: Option<PackageName>,
        dependency: &Dependency,
    ) -> (r: Result<(), DependencyError>)
        requires
            old(self).wf(),
        ensures
            final(self).wf(),
            r is Err == crate::model::conflicts(old(self)@, dependency@),
            r is Ok ==> final(self)@ == crate::model::with_edge(
                old(self)@,
                crate::text::opt_view(parent),
                dependency@,
            ),
            r matches Err(e) ==> final(self)@ == old(self)@ && e@
                == (ErrorView::LocalRemoteConflict { package: dependency@.package }),
            r is Ok ==> final(self)@.requirements.contains_key(dependency.package@)
                && final(self)@.requirements[dependency.package@].len() > 0
                && final(self)@.requirements[dependency.package@].last().from
                == crate::text::opt_view(parent)
                && final(self)@.requirements[dependency.package@].last().req
                == match dependency.manifest {
                DependencyManifest::Local(_) => seq!['*'],
                DependencyManifest::Remote(remote) => remote.version@,
            },
    {
        let ghost before = self@;
        let ghost from = crate::text::opt_view(parent);
        let name = dependency.package.clone();
        let new_source = match &dependency.manifest {
            DependencyManifest::Local(local) => {
                let mut path = crate::text::clone_strings(&self.base_path);
                path.push(local.path.clone());
                DependencySource::Local { path }
            },
            DependencyManifest::Remote(remote) => DependencySource::Remote {
                registry: remote.registry.clone(),
                repository: remote.repository.clone(),
            },
        };
        assert(new_source@ == crate::model::source_of(before.base_path, dependency@));
        match self.sources.get(&name) {
            Some(existing) => {
                match Self::ensure_source_kinds_match(&name, existing, &new_source) {
                    Ok(()) => {},
                    Err(e) => {
                        return Err(e);
                    },
                }
            },
            None => {
                self.sources.insert(name.clone(), new_source);
            },
        }
        let req = match &dependency.manifest {
            DependencyManifest::Local(_) => VersionReq::star(),
            DependencyManifest::Remote(remote) => remote.version.clone(),
        };
        let mut list = match self.requirements.remove(&name) {
            Some(list) => list,
            None => EdgeList { edges: Vec::new() },
        };
        assert(list@ =~= crate::model::edges_of(before, name@));
        list.edges.push(RequirementEdge { from: parent, req });
        self.requirements.insert(name.clone(), list);
        proof {
            let after = crate::model::with_requirement(before, from, dependency@);
            assert(self@.requirements =~= after.requirements);
            assert(self@.sources =~= after.sources);
            assert(self@ =~= after);
        }
        self.schedule(&name);
        proof {
            crate::laws::law_edge_keeps_consistency(before, from, dependency@);
        }
        Ok(())
    }

    /// Records an edge from `parent` to each dependency of a manifest, up to the first that
    /// conflicts.
    pub fn add_edges(
        &mut self,
        parent: Option<PackageName>,
        manifest: &PackagesManifest,
    ) -> (r: Result<(), DependencyError>)
        requires
            old(self).wf(),
        ensures
            final(self).wf(),
            r is Ok == crate::model::no_conflict(
                old(self)@,
                crate::text::opt_view(parent),
                manifest@.dependencies,
            ),
            r is Ok ==> final(self)@ == crate::model::with_edges(
                old(self)@,
                crate::text::opt_view(parent),
                manifest@.dependencies,
            ),
            r matches Err(e) ==> crate::model::conflict_reported(
                old(self)@,
                crate::text::opt_view(parent),
                manifest@.dependencies,
                final(self)@,
                e@,
            ),
    {
        let ghost before = self@;
        let ghost from = crate::text::opt_view(parent);
        let ghost all = manifest@.dependencies;
        match &manifest.dependencies {
            Some(dependencies) => {
                for i in 0..dependencies.len()
                    invariant
                        self.wf(),
                        before == old(self)@,
                        from == crate::text::opt_view(parent),
                        all == manifest@.dependencies,
                        all == crate::text::views(dependencies@),
                        self@ == crate::model::with_edges(before, from, all.take(i as int)),
                        forall|j: int|
                            0 <= j < i ==> !crate::model::conflicts(
                                crate::model::with_edges(before, from, #[trigger] all.take(j)),
                                all[j],
                            ),
                {
                    assert(all[i as int] == dependencies@[i as int]@);
                    assert(all.take(i + 1).drop_last() =~= all.take(i as int));
                    let contributor = match &parent {
                        Some(parent) => Some(parent.clone()),
                        None => None,
                    };
                    match self.add_edge(contributor, &dependencies[i]) {
                        Ok(()) => {},
                        Err(e) => {
                            assert(crate::model::first_conflict(before, from, all, i as int));
                            return Err(e);
                        },
                    }
                }
            },
            None => {},
        }
        assert(all.take(all.len() as int) =~= all);
        Ok(())
    }
}

} // verus!
