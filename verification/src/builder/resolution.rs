//! The decisions of a resolution: what to look up next, and what to make of what was found.
use crate::builder::GraphBuilder;
use crate::error::{DependencyError, ErrorView};
use crate::graph::{DependencyGraph, DependencyNode, DependencySource};
use crate::lockfile::FileRequirement;
use crate::manifest::{
    Dependency, DependencyManifest, PackagesManifest, RegistryUri, RemoteDependencyManifest,
};
use crate::model::{BuilderView, PlanView};
use crate::package::{Name, NetworkMode, PackageName, PackageType};
use crate::version::{Version, VersionReq};
use std::collections::VecDeque;
use vstd::prelude::*;

verus! {

broadcast use crate::text::group_lists;

/// What a resolution needs to know of a package.
#[derive(Debug)]
pub enum Plan {
    /// The manifest of a local package
    ReadManifest {
        /// The directory of the package
        path: Vec<String>,
    },
    /// The version of a remote package that the lockfile pins
    Fetch {
        /// Registry
        registry: RegistryUri,
        /// Repository name
        repository: String,
        /// The version that is pinned
        version: Version,
        /// The file of that version
        file: FileRequirement,
    },
    /// Which versions of a remote package are published
    ListVersions {
        /// Registry
        registry: RegistryUri,
        /// Repository name
        repository: String,
    },
}

impl View for Plan {
    type V = PlanView;

    open spec fn view(&self) -> PlanView {
        match *self {
            Plan::ReadManifest { path } => PlanView::ReadManifest { path: crate::text::views(path@) },
            Plan::Fetch { registry, repository, version, file } => PlanView::Fetch {
                registry: registry@,
                repository: repository@,
                version: version@,
                file: file@,
            },
            Plan::ListVersions { registry, repository } => PlanView::ListVersions {
                registry: registry@,
                repository: repository@,
            },
        }
    }
}

impl GraphBuilder {
    /// Ensures that no lib package depends on an api package
    ///
    /// Root edges (`from: None`) use the root manifest's package type; an edge whose
    /// parent has no node counts as one from a package without a type.
    pub fn ensure_lib_not_depends_on_api(
        &self,
        name: &PackageName,
        package_type: Option<PackageType>,
    ) -> (r: Result<(), DependencyError>)
        requires
            self.wf(),
        ensures
            r is Err == crate::model::lib_depends_on_api(self@, name@, package_type),
            r matches Err(e) ==> crate::model::lib_edge_reported(self@, name@, e@),
    {
        match package_type {
            Some(PackageType::Api) => {},
            _ => {
                return Ok(());
            },
        }
        let edges = match self.requirements.get(name) {
            Some(list) => &list.edges,
            None => {
                return Ok(());
            },
        };
        let ghost all = crate::model::edges_of(self@, name@);
        for i in 0..edges.len()
            invariant
                self.wf(),
                all == crate::text::views(edges@),
                all == crate::model::edges_of(self@, name@),
                package_type == Some(PackageType::Api),
                forall|j: int|
                    0 <= j < i ==> crate::model::parent_type(self@, (#[trigger] all[j]).from)
                        != Some(PackageType::Lib),
        {
            let edge = &edges[i];
            assert(all[i as int] == edge@);
            let parent_type: Option<PackageType> = match &edge.from {
                None => self.root_package_type,
                Some(parent) => match self.nodes.get(parent) {
                    Some(node) => node.package_type,
                    None => None,
                },
            };
            assert(parent_type == crate::model::parent_type(self@, all[i as int].from));
            if let Some(PackageType::Lib) = parent_type {
                assert(crate::model::first_lib_edge(self@, name@, i as int));
                return Err(
                    DependencyError::InvalidPackageTypeDependency {
                        parent: match &edge.from {
                            Some(parent) => parent.clone(),
                            None => PackageName::unchecked("parent"),
                        },
                        dependency: name.clone(),
                    },
                );
            }
        }
        Ok(())
    }

    /// Takes packages off the worklist up to the first that is to be resolved.
    ///
    /// The resolution is complete when there is none.
    pub fn drive(&mut self) -> (r: Option<PackageName>)
        requires
            old(self).wf(),
        ensures
            final(self).wf(),
            match r {
                Some(name) => exists|k: int| #[trigger]
                    crate::model::next_due(old(self)@, k) && old(self)@.worklist[k] == name@
                        && final(self)@ == crate::model::popped(old(self)@, k + 1),
                None => crate::model::none_due(old(self)@) && final(self)@ == crate::model::popped(
                    old(self)@,
                    old(self)@.worklist.len() as int,
                ),
            },
    {
        let ghost before = self@;
        let ghost mut taken: int = 0;
        assert(before.worklist.skip(0) =~= before.worklist);
        while self.worklist.len() > 0
            invariant
                self.maps_wf(),
                before == old(self)@,
                crate::model::is_consistent(before),
                crate::model::is_consistent(self@),
                0 <= taken <= before.worklist.len(),
                self@ == crate::model::popped(before, taken),
                forall|j: int|
                    0 <= j < taken ==> !crate::model::is_due(before, #[trigger] before.worklist[j]),
            decreases self.worklist.len(),
        {
            let ghost queue = self.worklist@;
            let ghost names = self@.worklist;
            let name = self.worklist.pop_front().unwrap();
            proof {
                assert(names == crate::text::views(queue));
                assert(names == before.worklist.skip(taken));
                assert(names[0] == name@);
                assert(self@.worklist =~= names.skip(1));
                assert(names.skip(1) =~= before.worklist.skip(taken + 1));
                assert(self@ =~= crate::model::popped(before, taken + 1));
                crate::laws::law_pops_keep_consistency(before, taken + 1);
                taken = taken + 1;
            }
            // The package may have been retracted out of existence, or satisfied by
            // an earlier pop, since it was scheduled.
            if self.requirements.contains(&name) && self.visit_needed(&name) {
                assert(crate::model::is_due(before, name@));
                assert(crate::model::next_due(before, taken - 1));
                return Some(name);
            }
            assert(!crate::model::is_due(before, name@));
        }
        assert(self@.worklist =~= seq![]);
        None
    }

    /// What is to be looked up to resolve a package: the manifest of a local one, or what
    /// `resolve_remote` says of a remote one.
    pub fn resolve_one(&self, name: &PackageName) -> (r: Plan)
        requires
            self.wf(),
            self@.requirements.contains_key(name@),
        ensures
            crate::model::is_plan(self@, name@, r@),
    {
        assert(self@.sources.dom().contains(name@) == self@.requirements.dom().contains(name@));
        let source = self.sources.get(name).unwrap();
        match source {
            DependencySource::Local { path } => Plan::ReadManifest {
                path: crate::text::clone_strings(path),
            },
            DependencySource::Remote { registry, repository } => self.resolve_remote(
                name,
                registry,
                repository,
            ),
        }
    }

    /// What is to be looked up to resolve a remote package.
    ///
    /// The highest pinned version satisfying every requirement is used without asking the
    /// registry, if its file came from there. A pin that satisfies nothing is skipped, not an
    /// error: in a workspace pool it may belong to another, independently-resolved member.
    pub fn resolve_remote(
        &self,
        name: &PackageName,
        registry: &RegistryUri,
        repository: &String,
    ) -> (r: Plan)
        requires
            self.wf(),
            self@.requirements.contains_key(name@),
        ensures
            crate::model::is_remote_plan(self@, name@, registry@, repository@, r@),
    {
        let reqs = self.requirements.get(name).unwrap().reqs();
        if let Some(lockfile) = &self.lockfile {
            if let Some((version, file)) = lockfile.find_satisfying_all(name, &reqs) {
                let ghost pins = lockfile@;
                let ghost wanted = crate::model::edge_reqs(self@.requirements[name@]);
                let ghost i = choose|i: int| #[trigger]
                    crate::lockfile::is_pin(pins, name@, wanted, i) && version@ == pins[i].version
                        && file@ == pins[i].file;
                if crate::text::starts_with(file.url.as_str(), registry.text.as_str()) {
                    let r = Plan::Fetch {
                        registry: registry.clone(),
                        repository: repository.clone(),
                        version,
                        file,
                    };
                    assert(crate::model::is_usable_pin(self@, name@, registry@, i));
                    return r;
                }
                proof {
                    assert forall|j: int| #[trigger]
                        crate::lockfile::is_last_pin(
                            pins,
                            name@,
                            wanted,
                            j,
                        ) implies !registry@.is_prefix_of(pins[j].file.url) by {
                        crate::lockfile::law_pin_is_unique(pins, name@, wanted, i, j);
                    }
                }
            }
        }
        Plan::ListVersions { registry: registry.clone(), repository: repository.clone() }
    }

    /// The highest published version that satisfies every requirement on a package.
    pub fn select_version(&self, name: &PackageName, available: Vec<Version>) -> (r: Result<
        Version,
        DependencyError,
    >)
        requires
            self.wf(),
            self@.requirements.contains_key(name@),
        ensures
            ({
                let versions = crate::text::views(available@);
                let reqs = crate::model::edge_reqs(self@.requirements[name@]);
                match r {
                    Ok(chosen) => crate::pick::is_pick(versions, reqs, Some(chosen@)),
                    Err(e) => crate::pick::is_pick(versions, reqs, None) && e@ == (
                    ErrorView::NoCompatibleVersion {
                        package: name@,
                        requirements: reqs,
                        available_versions: versions,
                    }),
                }
            }),
    {
        let reqs = self.requirements.get(name).unwrap().reqs();
        match crate::pick::highest_satisfying_all(&available, &reqs) {
            Some(chosen) => Ok(chosen),
            None => Err(
                DependencyError::NoCompatibleVersion {
                    package: name.clone(),
                    requirements: reqs,
                    available_versions: available,
                },
            ),
        }
    }

    /// Drops the requirements on a package that are no longer asked for, where no published version
    /// meets every requirement.
    pub fn reconsider(&mut self, name: &PackageName, available: &Vec<Version>)
        requires
            old(self).wf(),
            old(self)@.requirements.contains_key(name@),
        ensures
            final(self).wf(),
            final(self)@ == crate::model::reconsidered(
                old(self)@,
                name@,
                crate::text::views(available@),
            ),
    {
        let reqs = self.requirements.get(name).unwrap().reqs();
        match crate::pick::highest_satisfying_all(available, &reqs) {
            Some(chosen) => {
                assert(crate::text::views(available@).contains(chosen@));
            },
            None => {
                self.prune(name);
            },
        }
    }

    /// Makes way for the chosen version of a package. False when the package is resolved to that
    /// version already, and there is nothing to do.
    pub fn begin_fetch(&mut self, name: &PackageName, chosen: &Version) -> (r: bool)
        requires
            old(self).wf(),
        ensures
            final(self).wf(),
            r == !crate::model::is_resolved_to(old(self)@, name@, chosen@),
            !r ==> final(self)@ == old(self)@,
            r ==> final(self)@ == (BuilderView {
                worklist: final(self)@.worklist,
                ..crate::model::made_way(old(self)@, name@)
            }),
            old(self)@.worklist.is_prefix_of(final(self)@.worklist),
            crate::model::is_scheduled(old(self)@, Some(name@)) ==> final(self)@.worklist == old(
                self,
            )@.worklist,
            !old(self)@.nodes.contains_key(name@) ==> final(self)@ == old(self)@,
            r ==> forall|n: Name| #[trigger]
                final(self)@.worklist.contains(n) <==> old(self)@.worklist.contains(n) || (old(
                    self,
                )@.nodes.contains_key(name@) && crate::model::is_unsettled(old(self)@, name@, n)),
    {
        assert(self@.worklist.subrange(0, self@.worklist.len() as int) =~= self@.worklist);
        if let Some(existing) = self.nodes.get(name) {
            if let Some(version) = &existing.resolved_version {
                if version.same(chosen) {
                    return false;
                }
            }
            // The pick changed: everything the old version pulled in is no longer
            // justified by this package.
            self.retract_contributions_from(name);
        }
        true
    }

    /// The download of the chosen version of a package, unless the network may not be used.
    pub fn download_request(
        &self,
        name: &PackageName,
        registry: &RegistryUri,
        repository: &String,
        chosen: &Version,
    ) -> (r: Result<Dependency, DependencyError>)
        requires
            self.wf(),
            self@.requirements.contains_key(name@),
        ensures
            match self@.network_mode {
                NetworkMode::Online => r matches Ok(dependency) && dependency@
                    == crate::model::pinned_dependency(name@, registry@, repository@, chosen@),
                NetworkMode::Offline => r matches Err(e) && e@ == (ErrorView::Offline {
                    name: name@,
                    requirements: crate::model::edge_reqs(self@.requirements[name@]),
                }),
            },
            r matches Ok(dependency) ==> {
                &&& dependency.package@ == name@
                &&& dependency@.manifest is Remote
                &&& dependency@.manifest->registry == registry@
                &&& dependency@.manifest->repository == repository@
                &&& dependency@.manifest->version == crate::version::exact_text(chosen@)
            },
    {
        match self.network_mode {
            NetworkMode::Online => Ok(
                Dependency {
                    package: name.clone(),
                    manifest: DependencyManifest::Remote(
                        RemoteDependencyManifest {
                            registry: registry.clone(),
                            repository: repository.clone(),
                            version: crate::version::exact_req(chosen),
                        },
                    ),
                },
            ),
            NetworkMode::Offline => Err(self.offline_error(name)),
        }
    }

    /// The error of a package that would have to be looked up in a registry.
    pub fn offline_error(&self, name: &PackageName) -> (r: DependencyError)
        requires
            self.wf(),
            self@.requirements.contains_key(name@),
        ensures
            r@ == (ErrorView::Offline {
                name: name@,
                requirements: crate::model::edge_reqs(self@.requirements[name@]),
            }),
    {
        DependencyError::Offline {
            name: name.clone(),
            requirements: self.requirements.get(name).unwrap().reqs(),
        }
    }

    /// Records the chosen version of a remote package, and the requirements of its manifest.
    pub fn fetch_and_walk(
        &mut self,
        name: &PackageName,
        registry: &RegistryUri,
        repository: &String,
        chosen: &Version,
        manifest: &PackagesManifest,
    ) -> (r: Result<(), DependencyError>)
        requires
            old(self).wf(),
            old(self)@.requirements.contains_key(name@),
        ensures
            final(self).wf(),
            crate::model::is_walk_of(
                old(self)@,
                name@,
                crate::model::remote_node(name@, registry@, repository@, chosen@, manifest@),
                old(self)@.base_path,
                manifest@,
                match r {
                    Ok(()) => None,
                    Err(e) => Some(e@),
                },
                final(self)@,
            ),
    {
        let ghost before = self@;
        let package_type = manifest.package_type();
        match self.ensure_lib_not_depends_on_api(name, package_type) {
            Ok(()) => {},
            Err(e) => {
                return Err(e);
            },
        }
        // `version` is consumed by the installer to fetch the package, so it must
        // pin the version the resolver actually chose, not one of the requirements
        // that produced it, which would let the installer re-resolve upward.
        let node = DependencyNode {
            name: name.clone(),
            package_type,
            source: DependencySource::Remote {
                registry: registry.clone(),
                repository: repository.clone(),
            },
            dependencies: manifest.get_dependency_package_names(),
            version: crate::version::exact_req(chosen),
            resolved_version: Some(chosen.clone()),
        };
        self.nodes.insert(name.clone(), node);
        proof {
            let added = crate::model::remote_node(
                name@,
                registry@,
                repository@,
                chosen@,
                manifest@,
            );
            crate::laws::law_node_keeps_consistency(before, name@, added);
            assert(self@ =~= crate::model::with_node(before, name@, added));
            assert(crate::model::at_path(self@, before.base_path) =~= self@);
        }
        let ghost entered = self@;
        let result = self.add_edges(Some(name.clone()), manifest);
        proof {
            let from = Some(name@);
            crate::laws::lemma_edges_keep_the_rest(entered, from, manifest@.dependencies);
            assert(crate::model::at_path(self@, before.base_path) =~= self@) by {
                if result is Err {
                    let k = choose|k: int| #[trigger]
                        crate::model::first_conflict(entered, from, manifest@.dependencies, k)
                            && self@ == crate::model::with_edges(
                            entered,
                            from,
                            manifest@.dependencies.take(k),
                        );
                    crate::laws::lemma_edges_keep_the_rest(
                        entered,
                        from,
                        manifest@.dependencies.take(k),
                    );
                }
            }
        }
        result
    }

    /// Records a local package, and the requirements of its manifest.
    #[verifier::rlimit(60)]
    pub fn resolve_local(
        &mut self,
        name: &PackageName,
        resolved_path: &Vec<String>,
        manifest: &PackagesManifest,
    ) -> (r: Result<(), DependencyError>)
        requires
            old(self).wf(),
            old(self)@.requirements.contains_key(name@),
        ensures
            final(self).wf(),
            crate::model::is_walk_of(
                old(self)@,
                name@,
                crate::model::local_node(
                    name@,
                    crate::text::views(resolved_path@),
                    manifest@,
                ),
                crate::text::views(resolved_path@),
                manifest@,
                match r {
                    Ok(()) => None,
                    Err(e) => Some(e@),
                },
                final(self)@,
            ),
    {
        let ghost before = self@;
        let ghost path = crate::text::views(resolved_path@);
        let package_type = manifest.package_type();
        match self.ensure_lib_not_depends_on_api(name, package_type) {
            Ok(()) => {},
            Err(e) => {
                return Err(e);
            },
        }
        // Insert before registering sub-edges so a back-edge into this package
        // resolves against an existing node instead of looping.
        let node = DependencyNode {
            name: name.clone(),
            package_type,
            source: DependencySource::Local { path: crate::text::clone_strings(resolved_path) },
            dependencies: manifest.get_dependency_package_names(),
            version: VersionReq::star(),
            resolved_version: None,
        };
        self.nodes.insert(name.clone(), node);
        // Sub-dependency paths are relative to this package's directory.
        let mut old_base = crate::text::clone_strings(resolved_path);
        std::mem::swap(&mut self.base_path, &mut old_base);
        proof {
            let added = crate::model::local_node(name@, path, manifest@);
            crate::laws::law_node_keeps_consistency(before, name@, added);
            assert(self@ =~= crate::model::at_path(
                crate::model::with_node(before, name@, added),
                path,
            ));
        }
        let result = self.add_edges(Some(name.clone()), manifest);
        let ghost last = self@;
        self.base_path = old_base;
        proof {
            assert(self@ =~= crate::model::at_path(last, before.base_path));
            assert(crate::model::is_consistent(last));
            assert(crate::model::is_consistent(self@));
        }
        result
    }

    /// Puts a package at the end of the worklist.
    pub fn put_off(&mut self, name: &PackageName)
        requires
            old(self).wf(),
            !old(self)@.worklist.contains(name@),
        ensures
            final(self).wf(),
            final(self)@ == crate::model::put_off(old(self)@, name@),
    {
        let ghost before = self@;
        self.worklist.push_back(name.clone());
        proof {
            crate::lists::lemma_push_distinct(before.worklist, name@);
            assert(self@ =~= crate::model::put_off(before, name@));
        }
    }

    /// Puts the packages from `start` to `end` of the worklist behind all others.
    pub fn move_behind(&mut self, start: usize, end: usize)
        requires
            old(self).wf(),
            start <= end <= old(self)@.worklist.len(),
        ensures
            final(self).wf(),
            final(self)@ == crate::model::behind(old(self)@, start as int, end as int),
    {
        let ghost before = self@;
        let ghost queue = self.worklist@;
        let mut last = self.worklist.split_off(end);
        let mut moved = self.worklist.split_off(start);
        self.worklist.append(&mut last);
        self.worklist.append(&mut moved);
        proof {
            assert(self.worklist@ =~= queue.take(start as int) + queue.skip(end as int)
                + queue.subrange(start as int, end as int));
            assert(self@.worklist =~= crate::model::behind(
                before,
                start as int,
                end as int,
            ).worklist);
            crate::lists::lemma_behind(before.worklist, start as int, end as int);
        }
    }

    /// Whether some of the first `end` packages in the worklist is to be resolved.
    pub fn has_due_before(&self, end: usize) -> (r: bool)
        requires
            self.wf(),
            end <= self@.worklist.len(),
        ensures
            r == crate::model::has_due_before(self@, end as int),
    {
        let ghost all = self@.worklist;
        for i in 0..end
            invariant
                self.wf(),
                all == self@.worklist,
                end <= all.len(),
                all == crate::text::views(self.worklist@),
                forall|j: int| 0 <= j < i ==> !crate::model::is_due(self@, #[trigger] all[j]),
        {
            let name = &self.worklist[i];
            assert(all[i as int] == name@);
            if self.requirements.contains(name) && self.visit_needed(name) {
                assert(crate::model::is_due(self@, self@.worklist[i as int]));
                return true;
            }
        }
        false
    }

    /// How many requirements on a package are recorded.
    pub fn count_requirements(&self, name: &PackageName) -> (r: usize)
        requires
            self.wf(),
        ensures
            r == crate::model::edges_of(self@, name@).len(),
    {
        match self.requirements.get(name) {
            Some(list) => list.edges.len(),
            None => 0,
        }
    }

    /// How many packages are in the worklist.
    pub fn pending(&self) -> (r: usize)
        ensures
            r == self@.worklist.len(),
    {
        self.worklist.len()
    }

    /// Whether a package is resolved.
    pub fn has_node(&self, name: &PackageName) -> (r: bool)
        requires
            self.wf(),
        ensures
            r == self@.nodes.contains_key(name@),
    {
        self.nodes.contains(name)
    }

    /// Whether the network may be used.
    pub fn network_mode(&self) -> (r: NetworkMode)
        ensures
            r == self@.network_mode,
    {
        self.network_mode
    }

    /// What of this builder changes in the course of a resolution, to be told from later states.
    pub fn snapshot(&self) -> (r: GraphBuilder)
        requires
            self.wf(),
        ensures
            r.wf(),
            crate::model::course_of(r@) == crate::model::course_of(self@),
    {
        let mut worklist: VecDeque<PackageName> = VecDeque::new();
        let ghost all = self@.worklist;
        for i in 0..self.worklist.len()
            invariant
                all == crate::text::views(self.worklist@),
                crate::text::views(worklist@) =~= all.take(i as int),
        {
            worklist.push_back(self.worklist[i].clone());
            assert(all[i as int] == self.worklist@[i as int]@);
        }
        let r = GraphBuilder {
            nodes: self.nodes.copy(),
            requirements: self.requirements.copy(),
            sources: self.sources.copy(),
            worklist,
            base_path: Vec::new(),
            root_package_type: None,
            lockfile: None,
            network_mode: NetworkMode::Offline,
        };
        assert(crate::text::views(worklist@) =~= all);
        assert(crate::text::views(r.base_path@) =~= seq![]);
        assert(r@ =~= BuilderView {
            base_path: seq![],
            root_package_type: None,
            lockfile: None,
            network_mode: NetworkMode::Offline,
            ..self@
        });
        assert(crate::model::is_consistent(self@));
        r
    }

    /// Whether this builder is in the state of a snapshot.
    pub fn is_at(&self, snapshot: &GraphBuilder) -> (r: bool)
        requires
            self.wf(),
            snapshot.wf(),
        ensures
            r == (crate::model::course_of(self@) == crate::model::course_of(snapshot@)),
    {
        let ghost mine = crate::model::course_of(self@);
        let ghost theirs = crate::model::course_of(snapshot@);
        if self.worklist.len() != snapshot.worklist.len() {
            assert(mine.worklist.len() != theirs.worklist.len());
            return false;
        }
        for i in 0..self.worklist.len()
            invariant
                self.worklist@.len() == snapshot.worklist@.len(),
                mine == crate::model::course_of(self@),
                theirs == crate::model::course_of(snapshot@),
                forall|j: int| 0 <= j < i ==> #[trigger] mine.worklist[j] == theirs.worklist[j],
        {
            assert(mine.worklist[i as int] == self.worklist@[i as int]@);
            assert(theirs.worklist[i as int] == snapshot.worklist@[i as int]@);
            if !self.worklist[i].same(&snapshot.worklist[i]) {
                return false;
            }
        }
        assert(mine.worklist =~= theirs.worklist);
        let nodes = self.nodes.is_like(&snapshot.nodes);
        let requirements = self.requirements.is_like(&snapshot.requirements);
        let sources = self.sources.is_like(&snapshot.sources);
        proof {
            assert(nodes == (mine.nodes == theirs.nodes)) by {
                if nodes {
                    assert(mine.nodes =~= theirs.nodes);
                }
            }
            assert(sources == (mine.sources == theirs.sources)) by {
                if sources {
                    assert(mine.sources =~= theirs.sources);
                }
            }
            assert(requirements == (mine.requirements == theirs.requirements)) by {
                if requirements {
                    assert(mine.requirements =~= theirs.requirements);
                }
                if mine.requirements == theirs.requirements {
                    assert(self@.requirements.dom() =~= mine.requirements.dom());
                    assert(snapshot@.requirements.dom() =~= theirs.requirements.dom());
                    assert forall|m: Name| #[trigger] self@.requirements.contains_key(
                        m,
                    ) implies self@.requirements[m].to_set()
                        == snapshot@.requirements[m].to_set() by {
                        assert(mine.requirements[m] == theirs.requirements[m]);
                        assert(mine.requirements.dom().contains(m));
                        assert(theirs.requirements.dom().contains(m));
                    }
                }
            }
        }
        nodes && requirements && sources
    }

    /// Ensures that no lib package of the graph depends on an api package, nor the root package if
    /// it is a lib package.
    pub fn ensure_libs_off_apis(&self) -> (r: Result<(), DependencyError>)
        requires
            self.wf(),
        ensures
            match r {
                Ok(()) => forall|parent: Option<Name>, name: Name|
                    !crate::kinds::is_api_of_lib(self@, parent, name),
                Err(e) => crate::kinds::reports_api_of_lib(self@, e@),
            },
    {
        let ghost names = self.nodes.order();
        proof {
            self.nodes.lemma_order();
        }
        let n: usize = self.nodes.len();
        for i in 0..n
            invariant
                self.wf(),
                names == self.nodes.order(),
                n == names.len(),
                forall|j: int, parent: Option<Name>|
                    0 <= j < i ==> !(#[trigger] crate::kinds::is_api_of_lib(
                        self@,
                        parent,
                        names[j],
                    )),
        {
            let name = self.nodes.name_at(i);
            assert(names[i as int] == name@);
            match self.ensure_off_libs(name) {
                Ok(()) => {},
                Err(e) => {
                    return Err(e);
                },
            }
        }
        proof {
            self.nodes.lemma_order();
            assert forall|parent: Option<Name>, name: Name| !crate::kinds::is_api_of_lib(
                self@,
                parent,
                name,
            ) by {
                if self@.nodes.contains_key(name) {
                    assert(names.to_set().contains(name));
                    let j = names.index_of(name);
                    assert(!crate::kinds::is_api_of_lib(self@, parent, names[j]));
                }
            }
        }
        Ok(())
    }

    /// Ensures that no lib package depends on `name`, if that is an api package.
    fn ensure_off_libs(&self, name: &PackageName) -> (r: Result<(), DependencyError>)
        requires
            self.wf(),
            self@.nodes.contains_key(name@),
        ensures
            match r {
                Ok(()) => forall|parent: Option<Name>|
                    !crate::kinds::is_api_of_lib(self@, parent, name@),
                Err(e) => crate::kinds::reports_api_of_lib(self@, e@),
            },
    {
        match self.nodes.get(name).unwrap().package_type {
            Some(PackageType::Api) => {},
            _ => {
                return Ok(());
            },
        }
        if let Some(PackageType::Lib) = self.root_package_type {
            if let Some(list) = self.requirements.get(name) {
                if list.has_root_edge() {
                    assert(crate::kinds::is_api_of_lib(self@, None, name@));
                    return Err(
                        DependencyError::InvalidPackageTypeDependency {
                            parent: PackageName::unchecked("parent"),
                            dependency: name.clone(),
                        },
                    );
                }
            }
        }
        let ghost names = self.nodes.order();
        proof {
            self.nodes.lemma_order();
        }
        let n: usize = self.nodes.len();
        for i in 0..n
            invariant
                self.wf(),
                self@.nodes.contains_key(name@),
                self@.nodes[name@].package_type == Some(PackageType::Api),
                names == self.nodes.order(),
                n == names.len(),
                forall|j: int|
                    0 <= j < i ==> !crate::kinds::is_api_of_lib(
                        self@,
                        Some(#[trigger] names[j]),
                        name@,
                    ),
        {
            let parent = self.nodes.name_at(i);
            let node = self.nodes.value_at(i);
            assert(names[i as int] == parent@);
            if let Some(PackageType::Lib) = node.package_type {
                if name.is_in(&node.dependencies) {
                    assert(crate::kinds::is_api_of_lib(self@, Some(parent@), name@));
                    return Err(
                        DependencyError::InvalidPackageTypeDependency {
                            parent: parent.clone(),
                            dependency: name.clone(),
                        },
                    );
                }
            }
        }
        proof {
            self.nodes.lemma_order();
            assert forall|parent: Option<Name>| !crate::kinds::is_api_of_lib(
                self@,
                parent,
                name@,
            ) by {
                if parent is Some && self@.nodes.contains_key(parent->0) {
                    assert(names.to_set().contains(parent->0));
                    let j = names.index_of(parent->0);
                    assert(!crate::kinds::is_api_of_lib(self@, Some(names[j]), name@));
                }
            }
        }
        Ok(())
    }

    /// The nodes of the graph, and whether the network may be used.
    pub fn into_graph(self) -> (r: DependencyGraph)
        requires
            self.wf(),
        ensures
            r.nodes.wf(),
            r.nodes@ == self@.nodes,
            r.network_mode == self@.network_mode,
    {
        DependencyGraph { nodes: self.nodes, network_mode: self.network_mode }
    }
}

} // verus!
