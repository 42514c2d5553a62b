//! The course of a resolution: what is to be looked up, one thing at a time, and what the answers
//! lead to.
use crate::builder::resolution::Plan;
use crate::builder::GraphBuilder;
use crate::error::{DependencyError, ErrorView};
use crate::graph::{DependencyGraph, NodeView, SourceView};
use crate::lockfile::{FileRequirement, FileView, Lockfile};
use crate::manifest::{Dependency, DependencyView, ManifestView, PackagesManifest, RegistryUri};
use crate::model::{BuilderView, CourseView, EdgeView, PlanView};
use crate::package::{Name, NetworkMode, PackageName, PackageType};
use crate::version::{Version, VersionView};
use vstd::prelude::*;

verus! {

/// What a resolution waits for.
pub enum StageView {
    /// The manifest of a local package
    Reading { name: Name, path: Seq<Seq<char>> },
    /// The published versions of a package
    Listing { name: Name, registry: Seq<char>, repository: Seq<char> },
    /// The cached file of the chosen version of a package
    LookingUp {
        name: Name,
        registry: Seq<char>,
        repository: Seq<char>,
        chosen: VersionView,
        file: FileView,
        pick: PickView,
    },
    /// The download of the chosen version of a package, and what it was chosen from
    Downloading {
        name: Name,
        registry: Seq<char>,
        repository: Seq<char>,
        chosen: VersionView,
        pick: PickView,
    },
    /// Nothing more
    Done,
}

/// The package that a resolution waits for something of.
pub open spec fn package_of(stage: StageView) -> Option<Name> {
    match stage {
        StageView::Reading { name, path } => Some(name),
        StageView::Listing { name, registry, repository } => Some(name),
        StageView::LookingUp { name, registry, repository, chosen, file, pick } => Some(name),
        StageView::Downloading { name, registry, repository, chosen, pick } => Some(name),
        StageView::Done => None,
    }
}

/// What a version was chosen from: the versions that are pinned or else published, and the
/// requirements on the package.
pub struct PickView {
    pub versions: Seq<VersionView>,
    pub reqs: Seq<Seq<char>>,
}

/// A resolution: its state; what it waits for; the dependencies of the root manifest; the manifests
/// of the packages as they were last resolved; what their versions were chosen from; how many
/// packages at the end of the worklist were put off, because no version fits them; the error of the
/// first of those; and the states in which a resolved package was taken up again.
pub struct ResolutionView {
    pub builder: BuilderView,
    pub stage: StageView,
    pub root: Seq<DependencyView>,
    pub manifests: Map<Name, ManifestView>,
    pub picked: Map<Name, PickView>,
    pub waiting: nat,
    pub stuck: Option<ErrorView>,
    pub seen: Seq<CourseView>,
}

/// How a resolution fails: a package that was put off comes before what came up later.
pub open spec fn failure(v: ResolutionView, e: ErrorView) -> Result<ResolutionView, ErrorView> {
    match v.stuck {
        Some(first) => Err(first),
        None => Err(e),
    }
}

/// Whether a resolution goes on to `outcome`: it takes up the first package in the worklist that is
/// due and was not put off. If there is none, it fails if packages were put off, and is complete if
/// none was.
pub open spec fn goes_on(v: ResolutionView, outcome: Result<ResolutionView, ErrorView>) -> bool {
    let b = v.builder;
    if crate::model::has_due_before(b, b.worklist.len() - v.waiting) {
        exists|k: int| #[trigger]
            crate::model::next_due(b, k) && takes_up(
                ResolutionView { builder: crate::model::popped(b, k + 1), ..v },
                b.worklist[k],
                outcome,
            )
    } else {
        outcome == match v.stuck {
            Some(first) => Err::<ResolutionView, ErrorView>(first),
            None => Ok(
                ResolutionView {
                    builder: crate::model::popped(b, b.worklist.len() as int),
                    stage: StageView::Done,
                    ..v
                },
            ),
        }
    }
}

/// A resolution before anything is taken up, where the dependencies of the root manifest are
/// recorded.
pub open spec fn opening(b: BuilderView, root: Seq<DependencyView>) -> ResolutionView {
    ResolutionView {
        builder: b,
        stage: StageView::Done,
        root,
        manifests: Map::empty(),
        picked: Map::empty(),
        waiting: 0,
        stuck: None,
        seen: seq![],
    }
}

/// A resolution in which a package has made way for a version. Where the package was resolved, what
/// its last pick contributed is retracted. If that touches the requirements on the first package
/// that was put off, its conflict may be lifted, and the packages that were put off come first again.
pub open spec fn making_way(v: ResolutionView, name: Name) -> ResolutionView {
    let b = v.builder;
    let way = crate::model::made_way(b, name);
    if !b.nodes.contains_key(name) || (v.stuck is Some && crate::model::is_untouched(
        b,
        way,
        v.stuck->0,
    )) {
        ResolutionView { builder: way, ..v }
    } else {
        ResolutionView {
            builder: crate::model::behind(way, 0, b.worklist.len() - v.waiting),
            waiting: 0,
            stuck: None,
            ..v
        }
    }
}

/// A resolution in which a package is put off with an error.
pub open spec fn putting_off(v: ResolutionView, name: Name, e: ErrorView) -> ResolutionView {
    ResolutionView {
        builder: crate::model::put_off(v.builder, name),
        waiting: v.waiting + 1,
        stuck: match v.stuck {
            Some(first) => Some(first),
            None => Some(e),
        },
        ..v
    }
}

/// Whether the package `name` is taken up. A resolution that takes a resolved package up in a state
/// in which it did so before would go round in a circle: it fails.
pub open spec fn takes_up(
    v: ResolutionView,
    name: Name,
    outcome: Result<ResolutionView, ErrorView>,
) -> bool {
    let course = crate::model::course_of(v.builder);
    if !v.builder.nodes.contains_key(name) {
        calls_for(v, name, outcome)
    } else if v.seen.contains(course) {
        outcome == failure(v, ErrorView::CircularDependency(name))
    } else {
        calls_for(ResolutionView { seen: v.seen.push(course), ..v }, name, outcome)
    }
}

/// Whether a resolution comes to wait for what the package `name` calls for. What an earlier pick
/// of a pinned package contributed is retracted. The published versions are not asked for where the
/// network may not be used.
pub open spec fn calls_for(
    v: ResolutionView,
    name: Name,
    outcome: Result<ResolutionView, ErrorView>,
) -> bool {
    exists|plan: PlanView| #[trigger]
        crate::model::is_plan(v.builder, name, plan) && outcome == match plan {
            PlanView::ReadManifest { path } => Ok::<ResolutionView, ErrorView>(
                ResolutionView { stage: StageView::Reading { name, path }, ..v },
            ),
            PlanView::Fetch { registry, repository, version, file } => Ok(
                ResolutionView {
                    stage: StageView::LookingUp {
                        name,
                        registry,
                        repository,
                        chosen: version,
                        file,
                        pick: pinned_pick(v.builder, name),
                    },
                    ..making_way(v, name)
                },
            ),
            PlanView::ListVersions { registry, repository } => match v.builder.network_mode {
                NetworkMode::Online => Ok(
                    ResolutionView {
                        stage: StageView::Listing { name, registry, repository },
                        ..v
                    },
                ),
                NetworkMode::Offline => failure(v, is_offline(v.builder, name)),
            },
        }
}

/// What the version of a pinned package is chosen from.
pub open spec fn pinned_pick(b: BuilderView, name: Name) -> PickView {
    PickView {
        versions: crate::lockfile::versions_of(b.lockfile->0, name),
        reqs: crate::model::edge_reqs(b.requirements[name]),
    }
}

/// The error of a package that would have to be looked up in a registry.
pub open spec fn is_offline(b: BuilderView, name: Name) -> ErrorView {
    ErrorView::Offline { name, requirements: crate::model::edge_reqs(b.requirements[name]) }
}

/// Whether a resolution comes to wait for a download, or fails because the network may not be used.
pub open spec fn downloads(
    v: ResolutionView,
    name: Name,
    registry: Seq<char>,
    repository: Seq<char>,
    chosen: VersionView,
    pick: PickView,
    outcome: Result<ResolutionView, ErrorView>,
) -> bool {
    match v.builder.network_mode {
        NetworkMode::Online => outcome == Ok::<ResolutionView, ErrorView>(
            ResolutionView {
                stage: StageView::Downloading { name, registry, repository, chosen, pick },
                ..v
            },
        ),
        NetworkMode::Offline => outcome == failure(v, is_offline(v.builder, name)),
    }
}

/// Whether a resolution goes on from the walk of a manifest, with the packages that were put off
/// still behind all others, or fails as the walk does.
pub open spec fn walks(
    v: ResolutionView,
    name: Name,
    node: NodeView,
    base: Seq<Seq<char>>,
    manifest: ManifestView,
    pick: Option<PickView>,
    outcome: Result<ResolutionView, ErrorView>,
) -> bool {
    let len = v.builder.worklist.len() as int;
    exists|error: Option<ErrorView>, walked: BuilderView| #[trigger]
        crate::model::is_walk_of(v.builder, name, node, base, manifest, error, walked)
            && match error {
            None => goes_on(
                ResolutionView {
                    builder: crate::model::behind(walked, len - v.waiting, len),
                    stage: StageView::Done,
                    manifests: v.manifests.insert(name, manifest),
                    picked: with_pick(v.picked, name, pick),
                    ..v
                },
                outcome,
            ),
            Some(e) => outcome == failure(v, e),
        }
}

/// What the versions of packages were chosen from, with a package that has a version or none.
pub open spec fn with_pick(
    picked: Map<Name, PickView>,
    name: Name,
    pick: Option<PickView>,
) -> Map<Name, PickView> {
    match pick {
        Some(pick) => picked.insert(name, pick),
        None => picked.remove(name),
    }
}

/// Whether a resolution comes to wait for the download of the highest version that meets every
/// requirement, for which what an earlier pick contributed is retracted. Where there is none,
/// requirements that are no longer asked for do not count. Where there is still none, the package
/// is put off, for the requirements may yet change.
pub open spec fn selects(
    v: ResolutionView,
    name: Name,
    registry: Seq<char>,
    repository: Seq<char>,
    versions: Seq<VersionView>,
    outcome: Result<ResolutionView, ErrorView>,
) -> bool {
    let b = crate::model::reconsidered(v.builder, name, versions);
    let reqs = crate::model::edge_reqs(b.requirements[name]);
    let now = ResolutionView { builder: b, stage: StageView::Done, ..v };
    if !crate::model::needs_visit(b, name) {
        goes_on(now, outcome)
    } else if !crate::pick::is_pick(versions, reqs, None) {
        exists|chosen: VersionView|
            crate::pick::is_pick(versions, reqs, Some(chosen)) && #[trigger] downloads(
                making_way(now, name),
                name,
                registry,
                repository,
                chosen,
                PickView { versions, reqs },
                outcome,
            )
    } else {
        goes_on(putting_off(now, name, no_version(name, reqs, versions)), outcome)
    }
}

/// The error of a package of which no published version meets every requirement.
pub open spec fn no_version(
    name: Name,
    reqs: Seq<Seq<char>>,
    versions: Seq<VersionView>,
) -> ErrorView {
    ErrorView::NoCompatibleVersion {
        package: name,
        requirements: reqs,
        available_versions: versions,
    }
}

/// What a resolution is told when it waits for something.
pub enum AnswerView {
    /// The manifest that was read or downloaded
    Manifest(ManifestView),
    /// The versions that are published
    Versions(Seq<VersionView>),
    /// The manifest of the cached file, if the file is there
    Cached(Option<ManifestView>),
}

/// Whether a resolution, told what it waits for, goes on to `outcome`.
pub open spec fn is_led_by(
    v: ResolutionView,
    answer: AnswerView,
    outcome: Result<ResolutionView, ErrorView>,
) -> bool {
    match (v.stage, answer) {
        (StageView::Reading { name, path }, AnswerView::Manifest(manifest)) => walks(
            v,
            name,
            crate::model::local_node(name, path, manifest),
            path,
            manifest,
            None,
            outcome,
        ),
        (
            StageView::Listing { name, registry, repository },
            AnswerView::Versions(versions),
        ) => selects(v, name, registry, repository, versions, outcome),
        (
            StageView::LookingUp { name, registry, repository, chosen, file, pick },
            AnswerView::Cached(Some(manifest)),
        ) => walks(
            v,
            name,
            crate::model::remote_node(name, registry, repository, chosen, manifest),
            v.builder.base_path,
            manifest,
            Some(pick),
            outcome,
        ),
        (
            StageView::LookingUp { name, registry, repository, chosen, file, pick },
            AnswerView::Cached(None),
        ) => downloads(v, name, registry, repository, chosen, pick, outcome),
        (
            StageView::Downloading { name, registry, repository, chosen, pick },
            AnswerView::Manifest(manifest),
        ) => walks(
            v,
            name,
            crate::model::remote_node(name, registry, repository, chosen, manifest),
            v.builder.base_path,
            manifest,
            Some(pick),
            outcome,
        ),
        _ => false,
    }
}

/// Whether it is recorded what the version of each remote package was chosen from, and the version
/// is the highest there that meets the requirements it was chosen under.
pub open spec fn picks_hold(nodes: Map<Name, NodeView>, picked: Map<Name, PickView>) -> bool {
    forall|n: Name| #[trigger]
        nodes.contains_key(n) && nodes[n].source is Remote ==> picked.contains_key(n)
            && nodes[n].resolved_version is Some && crate::pick::is_pick(
            picked[n].versions,
            picked[n].reqs,
            nodes[n].resolved_version,
        )
}

/// Whether the root manifest, or the manifest of a package of the graph, asks for `req` of a
/// package.
pub open spec fn is_asked(
    nodes: Map<Name, NodeView>,
    root: Seq<DependencyView>,
    manifests: Map<Name, ManifestView>,
    name: Name,
    req: Seq<char>,
) -> bool {
    ||| exists|i: int|
        0 <= i < root.len() && (#[trigger] root[i]).package == name
            && crate::model::requirement_of(root[i]) == req
    ||| exists|n: Name, i: int|
        nodes.contains_key(n) && 0 <= i < manifests[n].dependencies.len() && (
        #[trigger] manifests[n].dependencies[i]).package == name && crate::model::requirement_of(
            manifests[n].dependencies[i],
        ) == req
}

/// Whether a remote package is at the highest of the versions it was chosen from that meets every
/// requirement on it, if the requirements that it was chosen under are all still asked for.
pub open spec fn is_highest_of(
    nodes: Map<Name, NodeView>,
    root: Seq<DependencyView>,
    manifests: Map<Name, ManifestView>,
    picked: Map<Name, PickView>,
    name: Name,
) -> bool {
    let v = nodes[name].resolved_version->0;
    (nodes[name].source is Remote && forall|k: int|
        0 <= k < picked[name].reqs.len() ==> is_asked(
            nodes,
            root,
            manifests,
            name,
            #[trigger] picked[name].reqs[k],
        )) ==> {
        &&& picked.contains_key(name)
        &&& nodes[name].resolved_version is Some
        &&& picked[name].versions.contains(v)
        &&& forall|w: VersionView| #[trigger]
            picked[name].versions.contains(w) && w != v && (forall|req: Seq<char>| #[trigger]
                is_asked(nodes, root, manifests, name, req) ==> crate::version::satisfies(req, w))
                ==> crate::version::precedes(w, v) && !crate::version::precedes(v, w)
                && !crate::version::is_lesser(v, w)
    }
}

/// The picks of a graph are the highest, wherever the requirements they were chosen under are all
/// still asked for.
pub proof fn law_picks_are_highest(
    nodes: Map<Name, NodeView>,
    root: Seq<DependencyView>,
    manifests: Map<Name, ManifestView>,
    picked: Map<Name, PickView>,
    name: Name,
)
    requires
        picks_hold(nodes, picked),
        nodes.contains_key(name),
    ensures
        is_highest_of(nodes, root, manifests, picked, name),
{
    if nodes[name].source is Remote && forall|k: int|
        0 <= k < picked[name].reqs.len() ==> is_asked(
            nodes,
            root,
            manifests,
            name,
            #[trigger] picked[name].reqs[k],
        ) {
        let v = nodes[name].resolved_version->0;
        assert forall|w: VersionView| #[trigger]
            picked[name].versions.contains(w) && w != v && (forall|req: Seq<char>| #[trigger]
                is_asked(nodes, root, manifests, name, req) ==> crate::version::satisfies(
                    req,
                    w,
                )) implies crate::version::precedes(w, v) && !crate::version::precedes(v, w)
            && !crate::version::is_lesser(v, w) by {
            assert(crate::pick::satisfies_all(picked[name].reqs, w)) by {
                assert forall|k: int| 0 <= k < picked[name].reqs.len() implies #[trigger] crate::version::satisfies(
                picked[name].reqs[k], w) by {
                    assert(is_asked(nodes, root, manifests, name, picked[name].reqs[k]));
                }
            }
        }
    }
}

/// Whether the package `name` is taken up from position `k` of the worklist of `origin`, where it
/// is the next that is due.
spec fn is_taken_up(
    v: ResolutionView,
    origin: BuilderView,
    k: int,
    name: Name,
    source: SourceView,
) -> bool {
    &&& crate::soundness::is_justified(origin, v.root, v.manifests)
    &&& picks_hold(origin.nodes, v.picked)
    &&& crate::model::next_due(origin, k)
    &&& name == origin.worklist[k]
    &&& source == origin.sources[name]
    &&& v.stuck matches Some(e) ==> e->NoCompatibleVersion_package != name
}

/// Whether a package is taken up, and has made way for a version that every requirement admits.
spec fn is_chosen(
    v: ResolutionView,
    origin: BuilderView,
    k: int,
    name: Name,
    source: SourceView,
    chosen: VersionView,
    pick: PickView,
) -> bool {
    &&& is_taken_up(v, origin, k, name, source)
    &&& v.builder == crate::model::made_way(crate::model::popped(origin, k + 1), name)
    &&& crate::pick::satisfies_all(crate::model::edge_reqs(origin.requirements[name]), chosen)
    &&& crate::pick::is_pick(pick.versions, pick.reqs, Some(chosen))
    &&& is_apart(v, name)
}

/// Whether a package is not resolved, or the first package that was put off is not required by it.
spec fn is_apart(v: ResolutionView, name: Name) -> bool {
    v.stuck matches Some(e) ==> !v.builder.nodes.contains_key(name) || !crate::model::has_edge_from(
        v.builder.requirements[e->NoCompatibleVersion_package],
        Some(name),
    )
}

/// Whether the packages that were put off are at the end of the worklist, and the error of the first
/// of them reports a conflict.
spec fn is_steady(v: ResolutionView) -> bool {
    let len = v.builder.worklist.len();
    &&& v.waiting <= len
    &&& v.stuck is None ==> v.waiting == 0
    &&& v.stuck matches Some(e) ==> crate::model::is_conflict(v.builder, e)
        && v.builder.worklist.skip(len - v.waiting).contains(e->NoCompatibleVersion_package)
}

/// What holds of a resolution, which last took a package up from position `k` of the worklist of
/// `origin`.
spec fn is_sound(v: ResolutionView, origin: BuilderView, k: int) -> bool {
    match v.stage {
        StageView::Reading { name, path } => {
            &&& is_taken_up(v, origin, k, name, SourceView::Local { path })
            &&& v.builder == crate::model::popped(origin, k + 1)
            &&& is_steady(v)
        },
        StageView::Listing { name, registry, repository } => {
            &&& is_taken_up(v, origin, k, name, SourceView::Remote { registry, repository })
            &&& v.builder == crate::model::popped(origin, k + 1)
            &&& is_steady(v)
        },
        StageView::LookingUp { name, registry, repository, chosen, file, pick } => {
            let source = SourceView::Remote { registry, repository };
            is_chosen(v, origin, k, name, source, chosen, pick) && is_steady(v)
        },
        StageView::Downloading { name, registry, repository, chosen, pick } => {
            let source = SourceView::Remote { registry, repository };
            is_chosen(v, origin, k, name, source, chosen, pick) && is_steady(v)
        },
        StageView::Done => {
            &&& crate::soundness::is_justified(v.builder, v.root, v.manifests)
            &&& picks_hold(v.builder.nodes, v.picked)
            &&& v.builder.worklist.len() == 0
        },
    }
}

/// What tells each of some states from others.
spec fn courses(states: Seq<GraphBuilder>) -> Seq<CourseView> {
    states.map_values(|state: GraphBuilder| crate::model::course_of(state@))
}

/// What is common to the stages of a resolution.
struct Course {
    builder: GraphBuilder,
    waiting: usize,
    stuck: Option<DependencyError>,
    seen: Vec<GraphBuilder>,
    root: Ghost<Seq<DependencyView>>,
    manifests: Ghost<Map<Name, ManifestView>>,
    picked: Ghost<Map<Name, PickView>>,
    origin: Ghost<BuilderView>,
    position: Ghost<int>,
}

impl Course {
    /// The resolution at a stage.
    closed spec fn at(self, stage: StageView) -> ResolutionView {
        ResolutionView {
            builder: self.builder@,
            stage,
            root: self.root@,
            manifests: self.manifests@,
            picked: self.picked@,
            waiting: self.waiting as nat,
            stuck: crate::text::opt_view(self.stuck),
            seen: courses(self.seen@),
        }
    }

    /// Whether the builder and the snapshots are well-formed, and no state was recorded twice.
    closed spec fn wf(self) -> bool {
        &&& self.builder.wf()
        &&& forall|i: int| 0 <= i < self.seen@.len() ==> (#[trigger] self.seen@[i]).wf()
        &&& courses(self.seen@).no_duplicates()
    }

    /// What holds of the resolution at a stage.
    closed spec fn inv(self, stage: StageView) -> bool {
        self.wf() && is_sound(self.at(stage), self.origin@, self.position@)
    }
}

/// A resolution that waits for the manifest of a local package.
pub struct Reading {
    course: Course,
    name: PackageName,
    path: Vec<String>,
}

impl View for Reading {
    type V = ResolutionView;

    closed spec fn view(&self) -> ResolutionView {
        self.course.at(
            StageView::Reading { name: self.name@, path: crate::text::views(self.path@) },
        )
    }
}

impl Reading {
    #[verifier::type_invariant]
    spec fn inv(self) -> bool {
        self.course.inv(self@.stage)
    }
}

/// A resolution that waits for the published versions of a package.
pub struct Listing {
    course: Course,
    name: PackageName,
    registry: RegistryUri,
    repository: String,
}

impl View for Listing {
    type V = ResolutionView;

    closed spec fn view(&self) -> ResolutionView {
        self.course.at(
            StageView::Listing {
                name: self.name@,
                registry: self.registry@,
                repository: self.repository@,
            },
        )
    }
}

impl Listing {
    #[verifier::type_invariant]
    spec fn inv(self) -> bool {
        self.course.inv(self@.stage)
    }
}

/// A resolution that waits for the cached file of the chosen version of a package.
pub struct LookingUp {
    course: Course,
    name: PackageName,
    registry: RegistryUri,
    repository: String,
    chosen: Version,
    file: FileRequirement,
    pick: Ghost<PickView>,
}

impl View for LookingUp {
    type V = ResolutionView;

    closed spec fn view(&self) -> ResolutionView {
        self.course.at(
            StageView::LookingUp {
                name: self.name@,
                registry: self.registry@,
                repository: self.repository@,
                chosen: self.chosen@,
                file: self.file@,
                pick: self.pick@,
            },
        )
    }
}

impl LookingUp {
    #[verifier::type_invariant]
    spec fn inv(self) -> bool {
        self.course.inv(self@.stage)
    }
}

/// A resolution that waits for the download of the chosen version of a package.
pub struct Downloading {
    course: Course,
    name: PackageName,
    registry: RegistryUri,
    repository: String,
    chosen: Version,
    dependency: Dependency,
    pick: Ghost<PickView>,
}

impl View for Downloading {
    type V = ResolutionView;

    closed spec fn view(&self) -> ResolutionView {
        self.course.at(
            StageView::Downloading {
                name: self.name@,
                registry: self.registry@,
                repository: self.repository@,
                chosen: self.chosen@,
                pick: self.pick@,
            },
        )
    }
}

impl Downloading {
    #[verifier::type_invariant]
    spec fn inv(self) -> bool {
        self.course.inv(self@.stage) && self.dependency@ == crate::model::pinned_dependency(
            self.name@,
            self.registry@,
            self.repository@,
            self.chosen@,
        )
    }
}

/// A resolution that is complete.
pub struct Resolved {
    course: Course,
}

impl View for Resolved {
    type V = ResolutionView;

    closed spec fn view(&self) -> ResolutionView {
        self.course.at(StageView::Done)
    }
}

impl Resolved {
    #[verifier::type_invariant]
    spec fn inv(self) -> bool {
        self.course.inv(self@.stage)
    }
}

/// What a resolution asks for.
pub enum Step {
    /// The manifest of a local package
    ReadManifest(Reading),
    /// The published versions of a package
    ListVersions(Listing),
    /// The cached file of the chosen version of a package
    LookUp(LookingUp),
    /// The download of the chosen version of a package
    Download(Downloading),
    /// Nothing more
    Done(Resolved),
}

impl View for Step {
    type V = ResolutionView;

    open spec fn view(&self) -> ResolutionView {
        match *self {
            Step::ReadManifest(reading) => reading@,
            Step::ListVersions(listing) => listing@,
            Step::LookUp(looking_up) => looking_up@,
            Step::Download(downloading) => downloading@,
            Step::Done(resolved) => resolved@,
        }
    }
}

/// What a call leads to.
pub open spec fn outcome(r: Result<Step, DependencyError>) -> Result<ResolutionView, ErrorView> {
    match r {
        Ok(step) => Ok(step@),
        Err(e) => Err(e@),
    }
}

/// Whether a failure for want of a version reports a conflict.
pub open spec fn reports_conflict(v: ResolutionView, r: Result<Step, DependencyError>) -> bool {
    r matches Err(e) ==> e@ is NoCompatibleVersion ==> crate::model::is_conflict(v.builder, e@)
}

proof fn lemma_reports_conflict(
    v: ResolutionView,
    answer: AnswerView,
    r: Result<Step, DependencyError>,
)
    requires
        is_led_by(v, answer, outcome(r)),
        is_steady(v),
        v.stage matches StageView::Listing { name, registry, repository }
            ==> crate::model::is_reached(v.builder, None, name),
    ensures
        reports_conflict(v, r),
{
    if outcome(r) is Err && outcome(r)->Err_0 is NoCompatibleVersion {
        crate::conflicts::law_conflict_is_still_asked_for(v, answer, outcome(r)->Err_0);
    }
}

/// A state stays justified without packages at the start of its worklist that are not due.
proof fn lemma_passed_is_justified(
    b: BuilderView,
    root: Seq<DependencyView>,
    manifests: Map<Name, ManifestView>,
    k: int,
)
    requires
        crate::soundness::is_justified(b, root, manifests),
        0 <= k <= b.worklist.len(),
        forall|j: int| 0 <= j < k ==> !crate::model::is_due(b, #[trigger] b.worklist[j]),
    ensures
        crate::soundness::is_justified(crate::model::popped(b, k), root, manifests),
{
    let after = crate::model::popped(b, k);
    crate::laws::law_pops_keep_consistency(b, k);
    assert forall|n: Name| #[trigger]
        after.requirements.contains_key(n) && crate::model::needs_visit(
            after,
            n,
        ) implies after.worklist.contains(n) by {
        assert(b.requirements.contains_key(n));
        assert(crate::model::needs_visit(b, n));
        let j = b.worklist.index_of(n);
        assert(crate::model::is_due(b, b.worklist[j]));
        assert(after.worklist[j - k] == n);
    }
    crate::soundness::lemma_same_records(b, after, None, root);
    crate::soundness::lemma_same_reach(b, after, root);
    assert forall|n: Name| #[trigger] after.nodes.contains_key(n) implies manifests.contains_key(n)
        && crate::soundness::is_walked(after, n, manifests[n]) by {
        assert(b.nodes.contains_key(n));
        crate::soundness::lemma_same_records(b, after, Some(n), manifests[n].dependencies);
    }
}

/// The root manifest leads to a package that is taken up.
proof fn lemma_taken_up_is_reached(v: ResolutionView, origin: BuilderView, k: int)
    requires
        is_sound(v, origin, k),
        v.stage is Listing,
    ensures
        crate::model::is_reached(v.builder, None, v.stage->Listing_name),
{
    crate::soundness::lemma_same_reach(origin, v.builder, v.root);
    reveal(crate::soundness::is_reachable);
    assert(v.builder.requirements.contains_key(v.stage->Listing_name));
}

/// The state that a package is taken up from, when the requirements on the package are
/// reconsidered.
proof fn lemma_reconsidered(
    origin: BuilderView,
    root: Seq<DependencyView>,
    manifests: Map<Name, ManifestView>,
    k: int,
    versions: Seq<VersionView>,
)
    requires
        crate::soundness::is_justified(origin, root, manifests),
        crate::model::next_due(origin, k),
    ensures
        ({
            let name = origin.worklist[k];
            let now = crate::model::reconsidered(origin, name, versions);
            &&& crate::soundness::is_justified(now, root, manifests)
            &&& now.requirements.contains_key(name)
            &&& now.nodes == origin.nodes
            &&& now.sources == origin.sources
            &&& now.worklist == origin.worklist
            &&& now.base_path == origin.base_path
            &&& crate::model::popped(now, k + 1) == crate::model::reconsidered(
                crate::model::popped(origin, k + 1),
                name,
                versions,
            )
            &&& if crate::model::needs_visit(now, name) {
                crate::model::next_due(now, k)
            } else {
                crate::soundness::is_justified(
                    crate::model::popped(now, k + 1),
                    root,
                    manifests,
                )
            }
        }),
{
    let name = origin.worklist[k];
    let now = crate::model::reconsidered(origin, name, versions);
    crate::soundness::law_pruning_keeps_justified(origin, root, manifests, name);
    let popped = crate::model::popped(origin, k + 1);
    assert(crate::model::live_edges(popped, name) =~= crate::model::live_edges(origin, name)) by {
        assert((|e: EdgeView| crate::model::is_live(popped, name, e)) =~= (|e: EdgeView|
            crate::model::is_live(origin, name, e)));
    }
    assert(crate::model::popped(now, k + 1) =~= crate::model::reconsidered(popped, name, versions));
    assert forall|j: int| 0 <= j < k implies !crate::model::is_due(now, #[trigger] now.worklist[j]) by {
        assert(!crate::model::is_due(origin, origin.worklist[j]));
        assert(origin.worklist[j] != origin.worklist[k]);
    }
    if !crate::model::needs_visit(now, name) {
        lemma_passed_is_justified(now, root, manifests, k + 1);
    }
}

/// A state whose worklist has the packages behind position `k` in another order: the first `fresh`
/// of them behind the others.
spec fn reordered(b: BuilderView, k: int, fresh: int) -> BuilderView {
    crate::model::behind(b, k + 1, k + 1 + fresh)
}

/// The state that a package is taken up from, with packages behind it in another order.
proof fn lemma_behind_origin(
    origin: BuilderView,
    root: Seq<DependencyView>,
    manifests: Map<Name, ManifestView>,
    k: int,
    fresh: int,
)
    requires
        crate::soundness::is_justified(origin, root, manifests),
        crate::model::next_due(origin, k),
        0 <= fresh <= origin.worklist.len() - (k + 1),
    ensures
        ({
            let now = reordered(origin, k, fresh);
            &&& crate::soundness::is_justified(now, root, manifests)
            &&& crate::model::next_due(now, k)
            &&& now.worklist[k] == origin.worklist[k]
            &&& now == (BuilderView { worklist: now.worklist, ..origin })
            &&& crate::model::popped(now, k + 1) == crate::model::behind(
                crate::model::popped(origin, k + 1),
                0,
                fresh,
            )
        }),
{
    let now = reordered(origin, k, fresh);
    crate::lists::lemma_behind(origin.worklist, k + 1, k + 1 + fresh);
    crate::soundness::law_order_keeps_justified(origin, root, manifests, now);
    assert forall|j: int| 0 <= j <= k implies #[trigger] now.worklist[j] == origin.worklist[j] by {}
    assert forall|j: int| 0 <= j < k implies !crate::model::is_due(now, #[trigger] now.worklist[j]) by {
        assert(!crate::model::is_due(origin, origin.worklist[j]));
    }
    assert(crate::model::is_due(origin, origin.worklist[k]));
    assert(crate::model::popped(now, k + 1).worklist =~= crate::model::behind(
        crate::model::popped(origin, k + 1),
        0,
        fresh,
    ).worklist);
}

/// The requirements on a package are untouched by a retraction if it leaves as many.
proof fn lemma_untouched(b: BuilderView, name: Name, e: ErrorView)
    requires
        crate::model::is_consistent(b),
        crate::model::is_conflict(b, e),
    ensures
        ({
            let package = e->NoCompatibleVersion_package;
            let after = crate::model::retracted(b, name);
            let left = crate::model::edges_of(after, package).len();
            crate::model::is_untouched(b, after, e) == (left > 0 && left == crate::model::edges_of(
                b,
                package,
            ).len())
        }),
{
    let package = e->NoCompatibleVersion_package;
    assert(b.requirements.contains_key(package));
    crate::lists::lemma_filter_len(
        b.requirements[package],
        |e: EdgeView| !crate::model::is_retracted(b, name, e),
    );
}

/// The error to report: that of a package that was put off comes first.
fn first_of(stuck: Option<DependencyError>, e: DependencyError) -> (r: DependencyError)
    ensures
        r@ == (match crate::text::opt_view(stuck) {
            Some(first) => first,
            None => e@,
        }),
{
    match stuck {
        Some(first) => first,
        None => e,
    }
}

impl Course {
    /// Whether the state of the builder is among those that were recorded.
    fn was_seen(&self) -> (r: bool)
        requires
            self.wf(),
        ensures
            r == self.at(StageView::Done).seen.contains(crate::model::course_of(self.builder@)),
    {
        let ghost all = courses(self.seen@);
        let ghost course = crate::model::course_of(self.builder@);
        for i in 0..self.seen.len()
            invariant
                self.wf(),
                all == courses(self.seen@),
                course == crate::model::course_of(self.builder@),
                forall|j: int| 0 <= j < i ==> #[trigger] all[j] != course,
        {
            assert(all[i as int] == crate::model::course_of(self.seen@[i as int]@));
            if self.builder.is_at(&self.seen[i]) {
                assert(all[i as int] == course);
                return true;
            }
        }
        false
    }

    /// Records the state of the builder.
    fn record(&mut self)
        requires
            old(self).wf(),
            !old(self).at(StageView::Done).seen.contains(
                crate::model::course_of(old(self).builder@),
            ),
        ensures
            final(self).wf(),
            final(self).at(StageView::Done) == (ResolutionView {
                seen: old(self).at(StageView::Done).seen.push(
                    crate::model::course_of(old(self).builder@),
                ),
                ..old(self).at(StageView::Done)
            }),
            final(self).origin == old(self).origin,
            final(self).position == old(self).position,
    {
        let ghost all = courses(self.seen@);
        let snapshot = self.builder.snapshot();
        let ghost course = crate::model::course_of(snapshot@);
        self.seen.push(snapshot);
        proof {
            crate::lists::lemma_push_distinct(all, course);
            assert(courses(self.seen@) =~= all.push(course));
        }
    }

    /// Takes up the next package that is to be resolved.
    fn go_on(self) -> (r: Result<Step, DependencyError>)
        requires
            self.wf(),
            crate::soundness::is_justified(self.builder@, self.root@, self.manifests@),
            picks_hold(self.builder@.nodes, self.picked@),
            is_steady(self.at(StageView::Done)),
        ensures
            goes_on(self.at(StageView::Done), outcome(r)),
    {
        let ghost b = self.builder@;
        let ghost v = self.at(StageView::Done);
        let mut course = self;
        let fresh: usize = course.builder.pending() - course.waiting;
        if !course.builder.has_due_before(fresh) {
            return match course.stuck.take() {
                Some(first) => Err(first),
                None => course.complete(),
            };
        }
        let name = course.builder.drive().unwrap();
        let ghost k = choose|k: int| #[trigger]
            crate::model::next_due(b, k) && b.worklist[k] == name@ && course.builder@
                == crate::model::popped(b, k + 1);
        let ghost rest = course.builder@;
        proof {
            let j = choose|j: int|
                0 <= j < fresh && crate::model::is_due(b, #[trigger] b.worklist[j]);
            assert(k <= j);
            crate::soundness::law_drive_keeps_schedule(b, k);
            course.origin@ = b;
            course.position@ = k;
            if course.stuck is Some {
                crate::conflicts::lemma_same_conflict(b, rest, v.stuck->0);
                let aside = b.worklist.skip(fresh as int);
                assert(rest.worklist.skip(rest.worklist.len() - course.waiting) =~= aside);
                let l = aside.index_of(v.stuck->0->NoCompatibleVersion_package);
                assert(b.worklist[fresh + l] == aside[l]);
            }
        }
        let ghost taken = course.at(StageView::Done);
        assert(taken == (ResolutionView { builder: rest, ..v }));
        if course.builder.has_node(&name) {
            if course.was_seen() {
                let text: String = name.as_str().to_string();
                let e = DependencyError::CircularDependency(text);
                let r = Err(first_of(course.stuck, e));
                assert(takes_up(taken, b.worklist[k], outcome(r)));
                return r;
            }
            course.record();
        }
        let ghost marked = course.at(StageView::Done);
        let r = course.call_for(name);
        proof {
            assert(calls_for(marked, b.worklist[k], outcome(r)));
            assert(takes_up(taken, b.worklist[k], outcome(r)));
        }
        r
    }

    /// Ends a resolution in which nothing is due.
    fn complete(self) -> (r: Result<Step, DependencyError>)
        requires
            self.wf(),
            crate::soundness::is_justified(self.builder@, self.root@, self.manifests@),
            picks_hold(self.builder@.nodes, self.picked@),
            crate::model::none_due(self.builder@),
        ensures
            outcome(r) == Ok::<ResolutionView, ErrorView>(
                ResolutionView {
                    builder: crate::model::popped(
                        self.builder@,
                        self.builder@.worklist.len() as int,
                    ),
                    ..self.at(StageView::Done)
                },
            ),
    {
        let ghost b = self.builder@;
        let mut course = self;
        let last = course.builder.drive();
        proof {
            assert(last is None);
            lemma_passed_is_justified(
                b,
                course.root@,
                course.manifests@,
                b.worklist.len() as int,
            );
        }
        Ok(Step::Done(Resolved { course }))
    }

    /// Comes to wait for what a package calls for.
    fn call_for(self, name: PackageName) -> (r: Result<Step, DependencyError>)
        requires
            self.wf(),
            is_taken_up(
                self.at(StageView::Done),
                self.origin@,
                self.position@,
                name@,
                self.origin@.sources[name@],
            ),
            self.builder@ == crate::model::popped(self.origin@, self.position@ + 1),
            is_steady(self.at(StageView::Done)),
        ensures
            calls_for(self.at(StageView::Done), name@, outcome(r)),
    {
        let ghost v = self.at(StageView::Done);
        let ghost rest = self.builder@;
        let ghost of = name@;
        let plan = self.builder.resolve_one(&name);
        let ghost said = plan@;
        match plan {
            Plan::ReadManifest { path } => {
                let r: Result<Step, DependencyError> = Ok(
                    Step::ReadManifest(Reading { course: self, name, path }),
                );
                assert(crate::model::is_plan(v.builder, of, said));
                r
            },
            Plan::ListVersions { registry, repository } => {
                match self.builder.network_mode() {
                    NetworkMode::Online => {
                        let r: Result<Step, DependencyError> = Ok(
                            Step::ListVersions(
                                Listing { course: self, name, registry, repository },
                            ),
                        );
                        assert(crate::model::is_plan(v.builder, of, said));
                        r
                    },
                    NetworkMode::Offline => {
                        let error = self.builder.offline_error(&name);
                        let r: Result<Step, DependencyError> = Err(first_of(self.stuck, error));
                        assert(crate::model::is_plan(v.builder, of, said));
                        r
                    },
                }
            },
            Plan::Fetch { registry, repository, version, file } => {
                let mut course = self;
                let ghost pins = rest.lockfile->0;
                let ghost wanted = crate::model::edge_reqs(rest.requirements[name@]);
                let pick = Ghost(pinned_pick(rest, name@));
                proof {
                    let i = choose|i: int| #[trigger]
                        crate::model::is_usable_pin(rest, name@, registry@, i) && version@
                            == pins[i].version && file@ == pins[i].file;
                    assert(crate::lockfile::pin_fits(pins, name@, wanted, i));
                    crate::lockfile::law_pin_is_the_highest(pins, name@, wanted, i);
                }
                course.make_way(&name, &version);
                let r: Result<Step, DependencyError> = Ok(
                    Step::LookUp(
                        LookingUp {
                            course,
                            name,
                            registry,
                            repository,
                            chosen: version,
                            file,
                            pick,
                        },
                    ),
                );
                assert(crate::model::is_plan(v.builder, of, said));
                r
            },
        }
    }

    /// Makes way for a version of a package that every requirement admits. Where that retracts what
    /// the last pick contributed, the packages that were put off come first again.
    fn make_way(&mut self, name: &PackageName, chosen: &Version)
        requires
            old(self).wf(),
            is_taken_up(
                old(self).at(StageView::Done),
                old(self).origin@,
                old(self).position@,
                name@,
                old(self).origin@.sources[name@],
            ),
            old(self).builder@ == crate::model::popped(
                old(self).origin@,
                old(self).position@ + 1,
            ),
            is_steady(old(self).at(StageView::Done)),
            crate::pick::satisfies_all(
                crate::model::edge_reqs(old(self).origin@.requirements[name@]),
                chosen@,
            ),
        ensures
            final(self).wf(),
            final(self).at(StageView::Done) == making_way(old(self).at(StageView::Done), name@),
            is_taken_up(
                final(self).at(StageView::Done),
                final(self).origin@,
                final(self).position@,
                name@,
                old(self).origin@.sources[name@],
            ),
            final(self).builder@ == crate::model::made_way(
                crate::model::popped(final(self).origin@, final(self).position@ + 1),
                name@,
            ),
            final(self).origin@.requirements == old(self).origin@.requirements,
            is_apart(final(self).at(StageView::Done), name@),
            is_steady(final(self).at(StageView::Done)),
    {
        let ghost v = self.at(StageView::Done);
        let ghost origin = self.origin@;
        let ghost k = self.position@;
        let ghost rest = self.builder@;
        let resolved = self.builder.has_node(name);
        let fresh: usize = self.builder.pending() - self.waiting;
        let before: usize = match &self.stuck {
            Some(DependencyError::NoCompatibleVersion {
                package,
                requirements: _,
                available_versions: _,
            }) => self.builder.count_requirements(package),
            _ => 0,
        };
        proof {
            crate::soundness::law_drive_keeps_schedule(origin, k);
        }
        self.builder.begin_fetch(name, chosen);
        let ghost way = self.builder@;
        assert(way =~= crate::model::made_way(rest, name@));
        if resolved {
            let after: usize = match &self.stuck {
                Some(DependencyError::NoCompatibleVersion {
                    package,
                    requirements: _,
                    available_versions: _,
                }) => self.builder.count_requirements(package),
                _ => 0,
            };
            proof {
                if v.stuck is Some {
                    lemma_untouched(rest, name@, v.stuck->0);
                }
            }
            if after > 0 && after == before {
                proof {
                    crate::conflicts::lemma_conflict_outlasts_retraction(
                        rest,
                        name@,
                        v.stuck->0,
                    );
                }
            } else {
                proof {
                    lemma_behind_origin(
                        origin,
                        self.root@,
                        self.manifests@,
                        k,
                        fresh as int,
                    );
                    let again = crate::model::behind(rest, 0, fresh as int);
                    crate::laws::lemma_same_retraction(rest, again, name@);
                    self.origin@ = reordered(origin, k, fresh as int);
                }
                self.builder.move_behind(0, fresh);
                self.waiting = 0;
                self.stuck = None;
                assert(self.builder@ =~= crate::model::made_way(
                    crate::model::popped(self.origin@, k + 1),
                    name@,
                ));
            }
        }
        assert(self.at(StageView::Done) == making_way(v, name@));
    }

    /// Records the chosen version of a remote package, and goes on.
    fn walk_remote(
        self,
        name: PackageName,
        registry: RegistryUri,
        repository: String,
        chosen: Version,
        pick: Ghost<PickView>,
        manifest: PackagesManifest,
    ) -> (r: Result<Step, DependencyError>)
        requires
            self.wf(),
            is_chosen(
                self.at(StageView::Done),
                self.origin@,
                self.position@,
                name@,
                SourceView::Remote { registry: registry@, repository: repository@ },
                chosen@,
                pick@,
            ),
            is_steady(self.at(StageView::Done)),
        ensures
            walks(
                self.at(StageView::Done),
                name@,
                crate::model::remote_node(
                    name@,
                    registry@,
                    repository@,
                    chosen@,
                    manifest@,
                ),
                self.builder@.base_path,
                manifest@,
                Some(pick@),
                outcome(r),
            ),
    {
        let ghost v = self.at(StageView::Done);
        let ghost b = self.builder@;
        let mut course = self;
        let ghost node = crate::model::remote_node(
            name@,
            registry@,
            repository@,
            chosen@,
            manifest@,
        );
        proof {
            lemma_way_keeps_package(
                course.origin@,
                course.position@,
                course.root@,
                course.manifests@,
            );
        }
        let len: usize = course.builder.pending();
        match course.builder.fetch_and_walk(&name, &registry, &repository, &chosen, &manifest) {
            Ok(()) => {},
            Err(e) => {
                assert(crate::model::is_walk_of(
                    b,
                    name@,
                    node,
                    b.base_path,
                    manifest@,
                    Some(e@),
                    course.builder@,
                ));
                return Err(first_of(course.stuck, e));
            },
        }
        proof {
            lemma_walk_is_step(
                course.origin@,
                course.position@,
                node,
                manifest@,
                course.root@,
                course.manifests@,
                b,
                course.builder@,
            );
            lemma_walk_keeps_picks(
                course.origin@,
                course.position@,
                node,
                manifest@,
                Some(pick@),
                course.picked@,
                b,
                course.builder@,
            );
        }
        course.settle(
            len,
            Ghost(v),
            Ghost(name@),
            Ghost(node),
            Ghost(b.base_path),
            Ghost(manifest@),
            Ghost(Some(pick@)),
        )
    }

    /// Goes on from the walk of a manifest, with the packages that were put off still behind all
    /// others. The worklist held `len` packages before.
    fn settle(
        self,
        len: usize,
        before: Ghost<ResolutionView>,
        name: Ghost<Name>,
        node: Ghost<NodeView>,
        base: Ghost<Seq<Seq<char>>>,
        manifest: Ghost<ManifestView>,
        pick: Ghost<Option<PickView>>,
    ) -> (r: Result<Step, DependencyError>)
        requires
            self.wf(),
            self.at(StageView::Done) == (ResolutionView {
                builder: self.builder@,
                stage: StageView::Done,
                ..before@
            }),
            len == before@.builder.worklist.len(),
            is_steady(before@),
            is_apart(before@, name@),
            crate::model::is_walk_of(
                before@.builder,
                name@,
                node@,
                base@,
                manifest@,
                None,
                self.builder@,
            ),
            crate::soundness::is_justified(
                self.builder@,
                self.root@,
                self.manifests@.insert(name@, manifest@),
            ),
            picks_hold(self.builder@.nodes, with_pick(self.picked@, name@, pick@)),
        ensures
            walks(before@, name@, node@, base@, manifest@, pick@, outcome(r)),
    {
        let ghost walked = self.builder@;
        let mut course = self;
        let start: usize = len - course.waiting;
        proof {
            let entered = crate::model::at_path(
                crate::model::with_node(before@.builder, name@, node@),
                base@,
            );
            crate::laws::lemma_edges_keep_the_rest(
                entered,
                Some(name@),
                manifest@.dependencies,
            );
            crate::laws::lemma_edges_extend_worklist(
                entered,
                Some(name@),
                manifest@.dependencies,
            );
            course.manifests@ = course.manifests@.insert(name@, manifest@);
            course.picked@ = with_pick(course.picked@, name@, pick@);
        }
        course.builder.move_behind(start, len);
        proof {
            let after = course.builder@;
            crate::lists::lemma_behind(walked.worklist, start as int, len as int);
            crate::soundness::law_order_keeps_justified(
                walked,
                course.root@,
                course.manifests@,
                after,
            );
            if before@.stuck is Some {
                crate::conflicts::lemma_conflict_outlasts_walk(
                    before@.builder,
                    name@,
                    node@,
                    base@,
                    manifest@,
                    walked,
                    before@.stuck->0,
                );
                crate::conflicts::lemma_same_conflict(walked, after, before@.stuck->0);
                assert(after.worklist.skip(after.worklist.len() - course.waiting)
                    =~= before@.builder.worklist.skip(start as int)) by {
                    assert(walked.worklist.take(len as int) == before@.builder.worklist);
                    assert forall|l: int| 0 <= l < len implies #[trigger] walked.worklist[l]
                        == before@.builder.worklist[l] by {
                        assert(walked.worklist.take(len as int)[l] == walked.worklist[l]);
                    }
                }
            }
        }
        let r = course.go_on();
        assert(crate::model::is_walk_of(
            before@.builder,
            name@,
            node@,
            base@,
            manifest@,
            None,
            walked,
        ));
        r
    }

    /// Comes to wait for the download of the chosen version of a package.
    fn download(
        self,
        name: PackageName,
        registry: RegistryUri,
        repository: String,
        chosen: Version,
        pick: Ghost<PickView>,
    ) -> (r: Result<Step, DependencyError>)
        requires
            self.wf(),
            is_chosen(
                self.at(StageView::Done),
                self.origin@,
                self.position@,
                name@,
                SourceView::Remote { registry: registry@, repository: repository@ },
                chosen@,
                pick@,
            ),
            is_steady(self.at(StageView::Done)),
        ensures
            downloads(
                self.at(StageView::Done),
                name@,
                registry@,
                repository@,
                chosen@,
                pick@,
                outcome(r),
            ),
    {
        proof {
            lemma_way_keeps_package(self.origin@, self.position@, self.root@, self.manifests@);
        }
        match self.builder.download_request(&name, &registry, &repository, &chosen) {
            Ok(dependency) => Ok(
                Step::Download(
                    Downloading {
                        course: self,
                        name,
                        registry,
                        repository,
                        chosen,
                        dependency,
                        pick,
                    },
                ),
            ),
            Err(e) => Err(first_of(self.stuck, e)),
        }
    }
}

/// The walk of a package keeps the other picks, and records its own.
proof fn lemma_walk_keeps_picks(
    origin: BuilderView,
    k: int,
    node: NodeView,
    manifest: ManifestView,
    pick: Option<PickView>,
    picked: Map<Name, PickView>,
    way: BuilderView,
    after: BuilderView,
)
    requires
        crate::model::next_due(origin, k),
        picks_hold(origin.nodes, picked),
        match pick {
            Some(pick) => node.resolved_version is Some && crate::pick::is_pick(
                pick.versions,
                pick.reqs,
                node.resolved_version,
            ),
            None => node.source is Local,
        },
        way == crate::model::made_way(crate::model::popped(origin, k + 1), origin.worklist[k]),
        crate::model::is_walk_of(
            way,
            origin.worklist[k],
            node,
            crate::soundness::base_of(origin, node),
            manifest,
            None,
            after,
        ),
    ensures
        picks_hold(after.nodes, with_pick(picked, origin.worklist[k], pick)),
{
    let name = origin.worklist[k];
    let entered = crate::model::at_path(
        crate::model::with_node(way, name, node),
        crate::soundness::base_of(origin, node),
    );
    crate::laws::lemma_edges_keep_the_rest(entered, Some(name), manifest.dependencies);
    let now = with_pick(picked, name, pick);
    assert forall|n: Name| #[trigger]
        after.nodes.contains_key(n) && after.nodes[n].source is Remote implies now.contains_key(n)
        && after.nodes[n].resolved_version is Some && crate::pick::is_pick(
        now[n].versions,
        now[n].reqs,
        after.nodes[n].resolved_version,
    ) by {
        if n != name {
            assert(origin.nodes.contains_key(n));
        }
    }
}

/// A package that has made way is still required.
proof fn lemma_way_keeps_package(
    origin: BuilderView,
    k: int,
    root: Seq<DependencyView>,
    manifests: Map<Name, ManifestView>,
)
    requires
        crate::soundness::is_justified(origin, root, manifests),
        crate::model::next_due(origin, k),
    ensures
        ({
            let name = origin.worklist[k];
            let way = crate::model::made_way(crate::model::popped(origin, k + 1), name);
            &&& way.requirements.contains_key(name)
            &&& way.requirements[name] == origin.requirements[name]
            &&& way.base_path == origin.base_path
        }),
{
    crate::laws::law_pops_keep_consistency(origin, k + 1);
    crate::laws::law_retraction_keeps_consistency(
        crate::model::popped(origin, k + 1),
        origin.worklist[k],
    );
}

/// A walk from a state in which a package has made way completes a step.
proof fn lemma_walk_is_step(
    origin: BuilderView,
    k: int,
    node: NodeView,
    manifest: ManifestView,
    root: Seq<DependencyView>,
    manifests: Map<Name, ManifestView>,
    way: BuilderView,
    after: BuilderView,
)
    requires
        crate::soundness::is_justified(origin, root, manifests),
        crate::soundness::is_step(origin, k, node, manifest),
        way == crate::model::made_way(crate::model::popped(origin, k + 1), origin.worklist[k]),
        crate::model::is_walk_of(
            way,
            origin.worklist[k],
            node,
            crate::soundness::base_of(origin, node),
            manifest,
            None,
            after,
        ),
    ensures
        crate::soundness::is_justified(
            after,
            root,
            manifests.insert(origin.worklist[k], manifest),
        ),
{
    crate::soundness::law_steps_keep_justified(origin, root, manifests, k, node, manifest);
}

impl Reading {
    /// The package.
    pub fn package(&self) -> (r: &PackageName)
        ensures
            self@.stage matches StageView::Reading { name, path } && r@ == name,
    {
        &self.name
    }

    /// The directory of the package: the segments to be joined one after the other.
    pub fn path(&self) -> (r: &Vec<String>)
        ensures
            self@.stage matches StageView::Reading { name, path } && crate::text::views(r@) == path,
    {
        &self.path
    }

    /// What is to be reported where the answer cannot be had: the error of the first package that
    /// was put off, if one was.
    pub fn give_up(self) -> (r: Option<DependencyError>)
        ensures
            crate::text::opt_view(r) == self@.stuck,
    {
        self.course.stuck
    }

    /// Records the package with its manifest, and goes on.
    pub fn resolve_local(self, manifest: PackagesManifest) -> (r: Result<Step, DependencyError>)
        ensures
            is_led_by(self@, AnswerView::Manifest(manifest@), outcome(r)),
            reports_conflict(self@, r),
    {
        proof {
            use_type_invariant(&self);
        }
        let ghost v = self@;
        let ghost b = self.course.builder@;
        let Reading { mut course, name, path } = self;
        let ghost base = crate::text::views(path@);
        let ghost node = crate::model::local_node(name@, base, manifest@);
        let ghost of = name@;
        proof {
            let origin = course.origin@;
            assert(!origin.nodes.contains_key(name@)) by {
                if origin.nodes.contains_key(name@) {
                    assert(crate::soundness::is_walked(
                        origin,
                        name@,
                        course.manifests@[name@],
                    ));
                    assert(crate::model::node_is_pinned(name@, origin.nodes[name@]));
                }
            }
        }
        let len: usize = course.builder.pending();
        let r = match course.builder.resolve_local(&name, &path, &manifest) {
            Ok(()) => {
                proof {
                    lemma_walk_is_step(
                        course.origin@,
                        course.position@,
                        node,
                        manifest@,
                        course.root@,
                        course.manifests@,
                        b,
                        course.builder@,
                    );
                    lemma_walk_keeps_picks(
                        course.origin@,
                        course.position@,
                        node,
                        manifest@,
                        None,
                        course.picked@,
                        b,
                        course.builder@,
                    );
                }
                course.settle(
                    len,
                    Ghost(v),
                    Ghost(of),
                    Ghost(node),
                    Ghost(base),
                    Ghost(manifest@),
                    Ghost(None),
                )
            },
            Err(e) => {
                assert(crate::model::is_walk_of(
                    b,
                    of,
                    node,
                    base,
                    manifest@,
                    Some(e@),
                    course.builder@,
                ));
                Err(first_of(course.stuck, e))
            },
        };
        proof {
            lemma_reports_conflict(v, AnswerView::Manifest(manifest@), r);
        }
        r
    }
}

impl Listing {
    /// The package.
    pub fn package(&self) -> (r: &PackageName)
        ensures
            self@.stage matches StageView::Listing { name, registry, repository } && r@ == name,
    {
        &self.name
    }

    /// The registry.
    pub fn registry(&self) -> (r: &RegistryUri)
        ensures
            self@.stage matches StageView::Listing { name, registry, repository } && r@ == registry,
    {
        &self.registry
    }

    /// The repository.
    pub fn repository(&self) -> (r: &String)
        ensures
            self@.stage matches StageView::Listing { name, registry, repository } && r@
                == repository,
    {
        &self.repository
    }

    /// What is to be reported where the answer cannot be had: the error of the first package that
    /// was put off, if one was.
    pub fn give_up(self) -> (r: Option<DependencyError>)
        ensures
            crate::text::opt_view(r) == self@.stuck,
    {
        self.course.stuck
    }

    /// Chooses among the published versions, and goes on.
    pub fn select(self, available: Vec<Version>) -> (r: Result<Step, DependencyError>)
        ensures
            is_led_by(self@, AnswerView::Versions(crate::text::views(available@)), outcome(r)),
            reports_conflict(self@, r),
    {
        proof {
            use_type_invariant(&self);
            lemma_taken_up_is_reached(self@, self.course.origin@, self.course.position@);
        }
        let ghost v = self@;
        let ghost versions = crate::text::views(available@);
        let ghost of = (self.name@, self.registry@, self.repository@);
        let Listing { course, name, registry, repository } = self;
        let r = course.choose_version(name, registry, repository, available);
        proof {
            assert(selects(
                ResolutionView { stage: StageView::Done, ..v },
                of.0,
                of.1,
                of.2,
                versions,
                outcome(r),
            ));
            assert(selects(v, of.0, of.1, of.2, versions, outcome(r)));
            lemma_reports_conflict(v, AnswerView::Versions(versions), r);
        }
        r
    }
}

impl Course {
    /// Chooses among the published versions of a package, and goes on.
    fn choose_version(
        self,
        name: PackageName,
        registry: RegistryUri,
        repository: String,
        available: Vec<Version>,
    ) -> (r: Result<Step, DependencyError>)
        requires
            self.wf(),
            is_taken_up(
                self.at(StageView::Done),
                self.origin@,
                self.position@,
                name@,
                SourceView::Remote { registry: registry@, repository: repository@ },
            ),
            self.builder@ == crate::model::popped(self.origin@, self.position@ + 1),
            is_steady(self.at(StageView::Done)),
            crate::model::is_reached(self.builder@, None, name@),
        ensures
            selects(
                self.at(StageView::Done),
                name@,
                registry@,
                repository@,
                crate::text::views(available@),
                outcome(r),
            ),
    {
        let ghost v = self.at(StageView::Done);
        let ghost versions = crate::text::views(available@);
        let mut course = self;
        let ghost origin = course.origin@;
        let ghost k = course.position@;
        proof {
            lemma_reconsidered(origin, course.root@, course.manifests@, k, versions);
            course.origin@ = crate::model::reconsidered(origin, name@, versions);
            if v.stuck is Some {
                crate::conflicts::lemma_conflict_outlasts_pruning(v.builder, name@, v.stuck->0);
            }
        }
        course.builder.reconsider(&name, &available);
        let ghost b = course.builder@;
        let ghost reqs = crate::model::edge_reqs(b.requirements[name@]);
        let ghost now = course.at(StageView::Done);
        if !course.builder.needs_visit(&name) {
            return course.go_on();
        }
        let chosen = match course.builder.select_version(&name, available) {
            Ok(chosen) => chosen,
            Err(e) => {
                proof {
                    crate::conflicts::lemma_is_conflict(v.builder, name@, versions);
                }
                return course.put_off(name, e);
            },
        };
        proof {
            assert(versions.contains(chosen@));
            assert(!crate::pick::is_pick(versions, reqs, None));
        }
        course.make_way(&name, &chosen);
        let pick = Ghost(PickView { versions, reqs });
        let ghost of = (name@, registry@, repository@, chosen@);
        let r = course.download(name, registry, repository, chosen, pick);
        assert(downloads(making_way(now, of.0), of.0, of.1, of.2, of.3, pick@, outcome(r)));
        r
    }

    /// Puts a package off, and goes on.
    fn put_off(self, name: PackageName, e: DependencyError) -> (r: Result<Step, DependencyError>)
        requires
            self.wf(),
            is_taken_up(
                self.at(StageView::Done),
                self.origin@,
                self.position@,
                name@,
                self.origin@.sources[name@],
            ),
            self.builder@ == crate::model::popped(self.origin@, self.position@ + 1),
            is_steady(self.at(StageView::Done)),
            crate::model::is_conflict(self.builder@, e@),
            e@->NoCompatibleVersion_package == name@,
        ensures
            goes_on(putting_off(self.at(StageView::Done), name@, e@), outcome(r)),
    {
        let ghost v = self.at(StageView::Done);
        let ghost origin = self.origin@;
        let ghost k = self.position@;
        let ghost rest = self.builder@;
        let mut course = self;
        proof {
            assert(!rest.worklist.contains(name@)) by {
                if rest.worklist.contains(name@) {
                    let j = rest.worklist.index_of(name@);
                    assert(origin.worklist[k + 1 + j] == origin.worklist[k]);
                }
            }
            crate::soundness::law_putting_off_keeps_justified(
                origin,
                course.root@,
                course.manifests@,
                k,
            );
        }
        course.builder.put_off(&name);
        let pending: usize = course.builder.pending();
        assert(course.waiting < pending);
        course.waiting = course.waiting + 1;
        let first = first_of(course.stuck.take(), e);
        proof {
            crate::conflicts::lemma_same_conflict(rest, course.builder@, first@);
            let aside = rest.worklist.skip(rest.worklist.len() - v.waiting);
            let now = course.builder@.worklist;
            assert(now.skip(now.len() - course.waiting) =~= aside.push(name@));
            crate::lists::lemma_push_contains(
                aside,
                name@,
                first@->NoCompatibleVersion_package,
            );
        }
        course.stuck = Some(first);
        assert(course.at(StageView::Done) == putting_off(v, name@, e@));
        course.go_on()
    }
}

impl LookingUp {
    /// The package.
    pub fn package(&self) -> (r: &PackageName)
        ensures
            self@.stage matches StageView::LookingUp { name, registry, repository, chosen, .. } && r@
                == name,
    {
        &self.name
    }

    /// The version that is pinned.
    pub fn version(&self) -> (r: &Version)
        ensures
            self@.stage matches StageView::LookingUp { name, registry, repository, chosen, file, pick }
                && r@ == chosen,
    {
        &self.chosen
    }

    /// The file.
    pub fn file(&self) -> (r: &FileRequirement)
        ensures
            self@.stage matches StageView::LookingUp { name, registry, repository, chosen, file, pick }
                && r@ == file,
    {
        &self.file
    }

    /// What is to be reported where the answer cannot be had: the error of the first package that
    /// was put off, if one was.
    pub fn give_up(self) -> (r: Option<DependencyError>)
        ensures
            crate::text::opt_view(r) == self@.stuck,
    {
        self.course.stuck
    }

    /// Records the package with the manifest in the cache and goes on, or comes to wait for its
    /// download.
    pub fn use_cached(self, cached: Option<PackagesManifest>) -> (r: Result<Step, DependencyError>)
        ensures
            is_led_by(self@, AnswerView::Cached(crate::text::opt_view(cached)), outcome(r)),
            reports_conflict(self@, r),
    {
        proof {
            use_type_invariant(&self);
        }
        let ghost v = self@;
        let ghost answer = AnswerView::Cached(crate::text::opt_view(cached));
        let LookingUp { course, name, registry, repository, chosen, file: _, pick } = self;
        let r = match cached {
            Some(manifest) => course.walk_remote(
                name,
                registry,
                repository,
                chosen,
                pick,
                manifest,
            ),
            None => course.download(name, registry, repository, chosen, pick),
        };
        proof {
            lemma_reports_conflict(v, answer, r);
        }
        r
    }
}

impl Downloading {
    /// The package.
    pub fn package(&self) -> (r: &PackageName)
        ensures
            self@.stage matches StageView::Downloading { name, registry, repository, chosen, .. } && r@
                == name,
    {
        &self.name
    }

    /// The registry.
    pub fn registry(&self) -> (r: &RegistryUri)
        ensures
            self@.stage matches StageView::Downloading { name, registry, repository, chosen, .. } && r@
                == registry,
    {
        &self.registry
    }

    /// What is to be downloaded: the package at the chosen version.
    pub fn dependency(&self) -> (r: &Dependency)
        ensures
            self@.stage matches StageView::Downloading { name, registry, repository, chosen, .. } && r@
                == crate::model::pinned_dependency(name, registry, repository, chosen),
            r@.package == self@.stage->Downloading_name,
            r@.manifest is Remote,
            r@.manifest->registry == self@.stage->Downloading_registry,
            r@.manifest->repository == self@.stage->Downloading_repository,
            r@.manifest->version == crate::version::exact_text(self@.stage->Downloading_chosen),
    {
        proof {
            use_type_invariant(self);
        }
        &self.dependency
    }

    /// The version that was chosen.
    pub fn version(&self) -> (r: &Version)
        ensures
            self@.stage matches StageView::Downloading { name, registry, repository, chosen, .. } && r@
                == chosen,
    {
        &self.chosen
    }

    /// What is to be reported where the answer cannot be had: the error of the first package that
    /// was put off, if one was.
    pub fn give_up(self) -> (r: Option<DependencyError>)
        ensures
            crate::text::opt_view(r) == self@.stuck,
    {
        self.course.stuck
    }

    /// Records the package with its manifest, and goes on.
    pub fn walk(self, manifest: PackagesManifest) -> (r: Result<Step, DependencyError>)
        ensures
            is_led_by(self@, AnswerView::Manifest(manifest@), outcome(r)),
            reports_conflict(self@, r),
    {
        proof {
            use_type_invariant(&self);
        }
        let ghost v = self@;
        let ghost answer = AnswerView::Manifest(manifest@);
        let Downloading { course, name, registry, repository, chosen, dependency: _, pick } = self;
        let r = course.walk_remote(name, registry, repository, chosen, pick, manifest);
        proof {
            lemma_reports_conflict(v, answer, r);
        }
        r
    }
}

impl Course {
    /// Takes up the first package, once the edges of the root manifest are recorded.
    fn start(
        builder: GraphBuilder,
        first: Ghost<BuilderView>,
        root: Ghost<Seq<DependencyView>>,
    ) -> (r: Result<Step, DependencyError>)
        requires
            builder.wf(),
            first@ == crate::model::initial(
                first@.base_path,
                first@.root_package_type,
                first@.lockfile,
                first@.network_mode,
            ),
            crate::model::no_conflict(first@, None, root@),
            builder@ == crate::model::with_edges(first@, None, root@),
        ensures
            goes_on(opening(builder@, root@), outcome(r)),
    {
        let ghost b = builder@;
        let course = Course {
            builder,
            waiting: 0,
            stuck: None,
            seen: Vec::new(),
            root,
            manifests: Ghost(Map::empty()),
            picked: Ghost(Map::empty()),
            origin: Ghost(b),
            position: Ghost(0),
        };
        assert(courses(course.seen@) =~= seq![]);
        proof {
            crate::soundness::law_beginning_is_justified(
                first@.base_path,
                first@.root_package_type,
                first@.lockfile,
                first@.network_mode,
                root@,
            );
        }
        course.go_on()
    }
}

impl DependencyGraph {
    /// Begins to build a dependency graph from a manifest
    ///
    /// Every root edge is registered before anything is resolved, so a package required by several
    /// roots is picked against the merged requirement set.
    #[verifier::rlimit(60)]
    #[verifier::spinoff_prover]
    pub fn begin(
        manifest: &PackagesManifest,
        base_path: Vec<String>,
        lockfile: Option<Lockfile>,
        network_mode: NetworkMode,
    ) -> (r: Result<Step, DependencyError>)
        ensures
            ({
                let b = crate::model::initial(
                    crate::text::views(base_path@),
                    manifest@.package_type,
                    crate::text::opt_view(lockfile),
                    network_mode,
                );
                let edges = manifest@.dependencies;
                if crate::model::no_conflict(b, None, edges) {
                    goes_on(opening(crate::model::with_edges(b, None, edges), edges), outcome(r))
                } else {
                    r matches Err(e) && exists|after: BuilderView| #[trigger]
                        crate::model::conflict_reported(b, None, edges, after, e@)
                }
            }),
    {
        let ghost path = crate::text::views(base_path@);
        let ghost pins = crate::text::opt_view(lockfile);
        let mut builder = GraphBuilder::new(
            base_path,
            manifest.package_type(),
            lockfile,
            network_mode,
        );
        match builder.add_edges(None, manifest) {
            Ok(()) => {},
            Err(e) => {
                return Err(e);
            },
        }
        Course::start(
            builder,
            Ghost(crate::model::initial(path, manifest@.package_type, pins, network_mode)),
            Ghost(manifest@.dependencies),
        )
    }

    /// Builds the dependency graph of a complete resolution
    ///
    /// A package that was resolved before a lib package came to depend on it may turn out to be an
    /// api package: that is found on the finished graph. The worklist is BFS, so a cycle produces a
    /// cyclic graph rather than unbounded recursion: it is detected on the finished graph as well.
    pub fn build(resolved: Resolved) -> (r: Result<Self, DependencyError>)
        ensures
            resolved@.stage is Done,
            match r {
                Ok(graph) => {
                    &&& graph.nodes.wf()
                    &&& graph.nodes@ == resolved@.builder.nodes
                    &&& graph.network_mode == resolved@.builder.network_mode
                    &&& exists|order: Seq<Name>|
                        crate::graph::is_topological_order(graph.nodes@, order)
                    &&& crate::kinds::keeps_libs_off_apis(
                        graph.nodes@,
                        resolved@.builder.root_package_type,
                        resolved@.root,
                    )
                },
                Err(e) => {
                    ||| crate::kinds::reports_api_of_lib(resolved@.builder, e@)
                    ||| crate::graph::reports_cycle(resolved@.builder.nodes, e@)
                        && crate::kinds::keeps_libs_off_apis(
                        resolved@.builder.nodes,
                        resolved@.builder.root_package_type,
                        resolved@.root,
                    ) && exists|walk: Seq<Name>|
                        crate::cycles::is_cycle(resolved@.builder.nodes, walk)
                },
            },
            is_graph_of(resolved@),
            r matches Err(e) ==> e@ is InvalidPackageTypeDependency ==> {
                let b = resolved@.builder;
                let parent = e@->parent;
                let dependency = e@->dependency;
                &&& b.nodes.contains_key(dependency)
                &&& b.nodes[dependency].package_type == Some(PackageType::Api)
                &&& {
                    ||| b.nodes.contains_key(parent) && b.nodes[parent].package_type == Some(
                        PackageType::Lib,
                    ) && b.nodes[parent].dependencies.contains(dependency)
                    ||| b.root_package_type == Some(PackageType::Lib)
                        && b.requirements.contains_key(dependency) && exists|k: int|
                        0 <= k < b.requirements[dependency].len() && (
                        #[trigger] b.requirements[dependency][k]).from is None
                }
            },
    {
        proof {
            use_type_invariant(&resolved);
            lemma_complete_is_graph(resolved@);
        }
        match resolved.course.builder.ensure_libs_off_apis() {
            Ok(()) => {},
            Err(e) => {
                proof {
                    crate::state_laws::law_refusal_on_the_graph_is_of_a_lib(resolved@.builder, e@);
                }
                return Err(e);
            },
        }
        proof {
            crate::kinds::law_root_is_off_apis(
                resolved@.builder,
                resolved@.root,
                resolved@.manifests,
            );
        }
        let graph = resolved.course.builder.into_graph();
        match graph.topological_sort() {
            Ok(order) => {
                assert(crate::graph::is_topological_order(
                    graph.nodes@,
                    crate::text::views(order@),
                ));
                Ok(graph)
            },
            Err(e) => {
                proof {
                    graph.nodes.lemma_order();
                    let stuck = choose|stuck: Seq<Name>| #[trigger]
                        crate::graph::is_stuck(graph.nodes@, stuck) && stuck.len() > 0;
                    assert(stuck.contains(stuck[0]));
                    crate::cycles::law_unsorted_packages_lead_to_a_cycle(graph.nodes@, stuck[0]);
                }
                Err(e)
            },
        }
    }
}

/// What holds of the packages of a complete resolution: every dependency of the root manifest and
/// of every package is met, and by a package of the graph; each package carries its name, pins the
/// version it is resolved to, and has the type and the dependencies that its manifest says; the
/// root manifest leads to it; and it is recorded what the version of a remote package was chosen
/// from, of which it is the highest that met the requirements then, and that meets them all if
/// those it was chosen under are all still asked for.
pub open spec fn is_graph_of(v: ResolutionView) -> bool {
    let nodes = v.builder.nodes;
    &&& picks_hold(nodes, v.picked)
    &&& crate::soundness::meets_every_dependency(nodes, v.root, v.manifests)
    &&& crate::cycles::is_closed(nodes)
    &&& forall|n: Name| #[trigger]
        nodes.contains_key(n) ==> {
            &&& crate::model::node_is_pinned(n, nodes[n])
            &&& v.manifests.contains_key(n)
            &&& nodes[n].package_type == v.manifests[n].package_type
            &&& nodes[n].dependencies == v.manifests[n].dependency_names()
            &&& exists|path: Seq<Name>| crate::reachability::is_path(nodes, v.root, path, n)
            &&& nodes[n].source is Remote ==> v.picked.contains_key(n)
            &&& is_highest_of(nodes, v.root, v.manifests, v.picked, n)
        }
}

proof fn lemma_complete_is_graph(v: ResolutionView)
    requires
        crate::soundness::is_justified(v.builder, v.root, v.manifests),
        picks_hold(v.builder.nodes, v.picked),
        v.builder.worklist.len() == 0,
    ensures
        is_graph_of(v),
{
    crate::soundness::law_complete_resolution_meets_every_dependency(
        v.builder,
        v.root,
        v.manifests,
    );
    let nodes = v.builder.nodes;
    assert forall|n: Name| #[trigger] nodes.contains_key(n) implies {
        &&& crate::model::node_is_pinned(n, nodes[n])
        &&& v.manifests.contains_key(n)
        &&& nodes[n].package_type == v.manifests[n].package_type
        &&& nodes[n].dependencies == v.manifests[n].dependency_names()
        &&& exists|path: Seq<Name>| crate::reachability::is_path(nodes, v.root, path, n)
        &&& is_highest_of(nodes, v.root, v.manifests, v.picked, n)
    } by {
        assert(crate::soundness::is_walked(v.builder, n, v.manifests[n]));
        crate::reachability::law_every_package_is_reachable(v.builder, v.root, v.manifests, n);
        law_picks_are_highest(nodes, v.root, v.manifests, v.picked, n);
    }
}

} // verus!
