//! What each answer makes of a resolution, said of its parts.
use crate::builder::resolution::Plan;
use crate::error::{DependencyError, ErrorView};
use crate::graph::{NodeView, SourceView};
use crate::manifest::{DependencyManifestView, DependencyView, ManifestView};
use crate::model::{BuilderView, PlanView};
use crate::package::{Name, NetworkMode};
use crate::resolver::{AnswerView, PickView, ResolutionView, StageView, Step};
use crate::version::VersionView;
use vstd::prelude::*;

verus! {

/// A resolution opens with the requirements of the root manifest, and nothing resolved, put off or
/// seen.
pub proof fn law_opening_has_the_root_alone(b: BuilderView, root: Seq<DependencyView>)
    ensures
        ({
            let v = crate::resolver::opening(b, root);
            &&& v.builder == b
            &&& v.stage is Done
            &&& v.root == root
            &&& v.waiting == 0
            &&& v.stuck is None
            &&& v.seen.len() == 0
            &&& forall|n: Name| !(#[trigger] v.manifests.contains_key(n))
            &&& forall|n: Name| !(#[trigger] v.picked.contains_key(n))
        }),
{
}

/// A step stands for the resolution that it holds, and a call leads to just the step or the error
/// that it returns.
pub proof fn law_step_stands_for_its_resolution(step: Step, e: DependencyError)
    ensures
        match step {
            Step::ReadManifest(reading) => step@ == reading@,
            Step::ListVersions(listing) => step@ == listing@,
            Step::LookUp(looking_up) => step@ == looking_up@,
            Step::Download(downloading) => step@ == downloading@,
            Step::Done(resolved) => step@ == resolved@,
        },
        crate::resolver::outcome(Ok(step)) is Ok,
        crate::resolver::outcome(Ok(step))->Ok_0 == step@,
        crate::resolver::outcome(Err(e)) is Err,
        crate::resolver::outcome(Err(e))->Err_0 == e@,
{
}

/// A plan stands for its parts.
pub proof fn law_plan_stands_for_its_parts(plan: Plan)
    ensures
        match plan {
            Plan::ReadManifest { path } => {
                &&& plan@ is ReadManifest
                &&& plan@->path.len() == path@.len()
                &&& forall|i: int| 0 <= i < path@.len() ==> #[trigger] plan@->path[i] == path@[i]@
            },
            Plan::Fetch { registry, repository, version, file } => {
                &&& plan@ is Fetch
                &&& plan@->Fetch_registry == registry.text@
                &&& plan@->Fetch_repository == repository@
                &&& plan@->version == version@
                &&& plan@->file.url == file.url@
                &&& plan@->file.digest == file.digest@
            },
            Plan::ListVersions { registry, repository } => {
                &&& plan@ is ListVersions
                &&& plan@->ListVersions_registry == registry.text@
                &&& plan@->ListVersions_repository == repository@
            },
        },
{
}

/// A resolution that fails reports the first package that was put off, or else what came up.
pub proof fn law_what_was_put_off_is_reported_first(v: ResolutionView, e: ErrorView)
    ensures
        crate::resolver::failure(v, e) is Err,
        v.stuck is Some ==> crate::resolver::failure(v, e)->Err_0 == v.stuck->0,
        v.stuck is None ==> crate::resolver::failure(v, e)->Err_0 == e,
{
}

/// Where no package is due but those that were put off, a resolution reports the first of those,
/// or is complete if there is none: its worklist is empty, and nothing else has changed.
pub proof fn law_resolution_ends_when_nothing_is_due(
    v: ResolutionView,
    outcome: Result<ResolutionView, ErrorView>,
)
    requires
        crate::resolver::goes_on(v, outcome),
        forall|j: int|
            0 <= j < v.builder.worklist.len() - v.waiting ==> !(v.builder.requirements.contains_key(
                #[trigger] v.builder.worklist[j],
            ) && crate::model::needs_visit(v.builder, v.builder.worklist[j])),
    ensures
        match v.stuck {
            Some(first) => outcome is Err && outcome->Err_0 == first,
            None => {
                let after = outcome->Ok_0;
                &&& outcome is Ok
                &&& after.stage is Done
                &&& after.builder.worklist.len() == 0
                &&& after.builder == (BuilderView {
                    worklist: after.builder.worklist,
                    ..v.builder
                })
                &&& after == (ResolutionView { builder: after.builder, stage: after.stage, ..v })
            },
        },
{
    let b = v.builder;
    assert(!crate::model::has_due_before(b, b.worklist.len() - v.waiting)) by {
        if crate::model::has_due_before(b, b.worklist.len() - v.waiting) {
            let j = choose|j: int|
                0 <= j < b.worklist.len() - v.waiting && crate::model::is_due(
                    b,
                    #[trigger] b.worklist[j],
                );
            assert(b.requirements.contains_key(b.worklist[j]));
        }
    }
}

/// Else it takes up the first package in the worklist that is required and needs a visit, which
/// was not put off. The packages before it leave the worklist. A resolved package is taken up once
/// only in any one state.
pub proof fn law_first_package_that_is_due_is_taken_up(
    v: ResolutionView,
    outcome: Result<ResolutionView, ErrorView>,
    k: int,
)
    requires
        crate::resolver::goes_on(v, outcome),
        0 <= k < v.builder.worklist.len() - v.waiting,
        v.builder.requirements.contains_key(v.builder.worklist[k]),
        crate::model::needs_visit(v.builder, v.builder.worklist[k]),
        forall|j: int|
            0 <= j < k ==> !(v.builder.requirements.contains_key(#[trigger] v.builder.worklist[j])
                && crate::model::needs_visit(v.builder, v.builder.worklist[j])),
    ensures
        ({
            let name = v.builder.worklist[k];
            let rest = BuilderView { worklist: v.builder.worklist.skip(k + 1), ..v.builder };
            let course = crate::model::course_of(rest);
            if !v.builder.nodes.contains_key(name) {
                crate::resolver::calls_for(ResolutionView { builder: rest, ..v }, name, outcome)
            } else if v.seen.contains(course) {
                outcome is Err && outcome->Err_0 == match v.stuck {
                    Some(first) => first,
                    None => ErrorView::CircularDependency(name),
                }
            } else {
                crate::resolver::calls_for(
                    ResolutionView { builder: rest, seen: v.seen.push(course), ..v },
                    name,
                    outcome,
                )
            }
        }),
{
    let b = v.builder;
    assert(crate::model::is_due(b, b.worklist[k]));
    assert(crate::model::has_due_before(b, b.worklist.len() - v.waiting));
    let i = choose|i: int| #[trigger]
        crate::model::next_due(b, i) && crate::resolver::takes_up(
            ResolutionView { builder: crate::model::popped(b, i + 1), ..v },
            b.worklist[i],
            outcome,
        );
    assert(crate::model::is_due(b, b.worklist[i]));
    assert(i == k) by {
        if i < k {
            assert(b.requirements.contains_key(b.worklist[i]));
        }
    }
}

/// A package that was put off is not taken up: the packages behind the first that is due do not
/// matter.
pub proof fn law_package_put_off_is_not_taken_up(
    v: ResolutionView,
    outcome: Result<ResolutionView, ErrorView>,
)
    requires
        crate::resolver::goes_on(v, outcome),
        outcome is Ok,
        !(outcome->Ok_0.stage is Done),
    ensures
        exists|k: int|
            #![trigger v.builder.worklist[k]]
            {
                &&& 0 <= k < v.builder.worklist.len() - v.waiting
                &&& v.builder.requirements.contains_key(v.builder.worklist[k])
                &&& crate::model::needs_visit(v.builder, v.builder.worklist[k])
            },
{
    let b = v.builder;
    let j = choose|j: int|
        0 <= j < b.worklist.len() - v.waiting && crate::model::is_due(b, #[trigger] b.worklist[j]);
    assert(v.builder.worklist[j] == b.worklist[j]);
}

/// A local package calls for its manifest, at its path; nothing else changes.
pub proof fn law_local_package_is_read(
    v: ResolutionView,
    name: Name,
    outcome: Result<ResolutionView, ErrorView>,
)
    requires
        crate::resolver::calls_for(v, name, outcome),
        v.builder.sources[name] is Local,
    ensures
        outcome is Ok,
        outcome->Ok_0.stage is Reading,
        outcome->Ok_0.stage->Reading_name == name,
        outcome->Ok_0.stage->path == v.builder.sources[name]->path,
        outcome->Ok_0 == (ResolutionView { stage: outcome->Ok_0.stage, ..v }),
{
}

/// A remote package without a usable pin calls for its published versions, from its registry and
/// repository, and nothing else changes; offline it fails, with every requirement on it.
pub proof fn law_versions_are_listed_online_alone(
    v: ResolutionView,
    name: Name,
    plan: PlanView,
    outcome: Result<ResolutionView, ErrorView>,
)
    requires
        crate::resolver::calls_for(v, name, outcome),
        crate::model::is_plan(v.builder, name, plan),
        plan is ListVersions,
    ensures
        v.builder.network_mode is Online ==> {
            let after = outcome->Ok_0;
            &&& outcome is Ok
            &&& after.stage is Listing
            &&& after.stage->Listing_name == name
            &&& after.stage->Listing_registry == plan->ListVersions_registry
            &&& after.stage->Listing_repository == plan->ListVersions_repository
            &&& after == (ResolutionView { stage: after.stage, ..v })
        },
        v.builder.network_mode is Offline ==> {
            let e = outcome->Err_0;
            &&& outcome is Err
            &&& v.stuck is Some ==> e == v.stuck->0
            &&& v.stuck is None ==> {
                &&& e is Offline
                &&& e->Offline_name == name
                &&& e->Offline_requirements.len() == v.builder.requirements[name].len()
                &&& forall|i: int|
                    0 <= i < e->Offline_requirements.len() ==> #[trigger] e->Offline_requirements[i]
                        == v.builder.requirements[name][i].req
            }
        },
{
    let other = choose|other: PlanView| #[trigger]
        crate::model::is_plan(v.builder, name, other) && outcome == match other {
            PlanView::ReadManifest { path } => Ok::<ResolutionView, ErrorView>(
                ResolutionView { stage: StageView::Reading { name, path }, ..v },
            ),
            PlanView::Fetch { registry, repository, version, file } => Ok(
                ResolutionView {
                    stage: StageView::LookingUp {
                        name,
                        registry,
                        repository,
                        chosen: version,
                        file,
                        pick: crate::resolver::pinned_pick(v.builder, name),
                    },
                    ..crate::resolver::making_way(v, name)
                },
            ),
            PlanView::ListVersions { registry, repository } => match v.builder.network_mode {
                NetworkMode::Online => Ok(
                    ResolutionView {
                        stage: StageView::Listing { name, registry, repository },
                        ..v
                    },
                ),
                NetworkMode::Offline => crate::resolver::failure(
                    v,
                    crate::resolver::is_offline(v.builder, name),
                ),
            },
        };
    crate::laws::law_plan_is_unique(v.builder, name, plan, other);
}

/// A remote package with a usable pin is looked up at the pinned version, with its file, online
/// and offline alike. The version was chosen from those at which the package is pinned, under
/// every requirement on it. The package makes way for it.
pub proof fn law_pinned_package_is_looked_up(
    v: ResolutionView,
    name: Name,
    plan: PlanView,
    outcome: Result<ResolutionView, ErrorView>,
)
    requires
        crate::resolver::calls_for(v, name, outcome),
        crate::model::is_plan(v.builder, name, plan),
        plan is Fetch,
    ensures
        outcome is Ok,
        outcome->Ok_0.stage is LookingUp,
        outcome->Ok_0.stage->LookingUp_name == name,
        outcome->Ok_0.stage->LookingUp_registry == plan->Fetch_registry,
        outcome->Ok_0.stage->LookingUp_repository == plan->Fetch_repository,
        outcome->Ok_0.stage->LookingUp_chosen == plan->version,
        outcome->Ok_0.stage->file == plan->file,
        outcome->Ok_0 == (ResolutionView {
            stage: outcome->Ok_0.stage,
            ..crate::resolver::making_way(v, name)
        }),
        ({
            let pick = outcome->Ok_0.stage->LookingUp_pick;
            let pins = v.builder.lockfile->0;
            &&& pick.reqs.len() == v.builder.requirements[name].len()
            &&& forall|i: int|
                0 <= i < pick.reqs.len() ==> #[trigger] pick.reqs[i]
                    == v.builder.requirements[name][i].req
            &&& forall|w: VersionView| #[trigger]
                pick.versions.contains(w) <==> exists|i: int|
                    0 <= i < pins.len() && (#[trigger] pins[i]).name == name && pins[i].version == w
        }),
{
    let other = choose|other: PlanView| #[trigger]
        crate::model::is_plan(v.builder, name, other) && outcome == match other {
            PlanView::ReadManifest { path } => Ok::<ResolutionView, ErrorView>(
                ResolutionView { stage: StageView::Reading { name, path }, ..v },
            ),
            PlanView::Fetch { registry, repository, version, file } => Ok(
                ResolutionView {
                    stage: StageView::LookingUp {
                        name,
                        registry,
                        repository,
                        chosen: version,
                        file,
                        pick: crate::resolver::pinned_pick(v.builder, name),
                    },
                    ..crate::resolver::making_way(v, name)
                },
            ),
            PlanView::ListVersions { registry, repository } => match v.builder.network_mode {
                NetworkMode::Online => Ok(
                    ResolutionView {
                        stage: StageView::Listing { name, registry, repository },
                        ..v
                    },
                ),
                NetworkMode::Offline => crate::resolver::failure(
                    v,
                    crate::resolver::is_offline(v.builder, name),
                ),
            },
        };
    crate::laws::law_plan_is_unique(v.builder, name, plan, other);
    let pins = v.builder.lockfile->0;
    let of = |p: crate::lockfile::LockedView| p.name == name;
    let own = pins.filter(of);
    let versions = crate::lockfile::versions_of(pins, name);
    crate::lists::lemma_filter_contents(pins, of);
    assert forall|w: VersionView| #[trigger] versions.contains(w) <==> exists|i: int|
        0 <= i < pins.len() && (#[trigger] pins[i]).name == name && pins[i].version == w by {
        if versions.contains(w) {
            let l = versions.index_of(w);
            assert(of(own[l]));
            let i = pins.index_of(own[l]);
            assert(pins[i].name == name);
        }
        if exists|i: int|
            0 <= i < pins.len() && (#[trigger] pins[i]).name == name && pins[i].version == w {
            let i = choose|i: int|
                0 <= i < pins.len() && (#[trigger] pins[i]).name == name && pins[i].version == w;
            assert(of(pins[i]));
            let l = own.index_of(pins[i]);
            assert(versions[l] == w);
        }
    }
}

/// A package that is not resolved makes way at no cost. One that is takes its contributions back;
/// unless the requirements on the first package that was put off stay as they are, the packages
/// that were put off then come first, before the others in their order, and count as put off no
/// more.
pub proof fn law_making_way_gives_another_try(v: ResolutionView, name: Name)
    requires
        v.waiting <= v.builder.worklist.len(),
    ensures
        ({
            let b = v.builder;
            let back = crate::model::retracted(b, name);
            let after = crate::resolver::making_way(v, name);
            let fresh = b.worklist.len() - v.waiting;
            if !b.nodes.contains_key(name) {
                after == v
            } else if v.stuck is Some && back.requirements.contains_key(
                v.stuck->0->NoCompatibleVersion_package,
            ) && back.requirements[v.stuck->0->NoCompatibleVersion_package]
                == b.requirements[v.stuck->0->NoCompatibleVersion_package] {
                after == (ResolutionView { builder: back, ..v })
            } else {
                &&& after.waiting == 0
                &&& after.stuck is None
                &&& after.builder == (BuilderView { worklist: after.builder.worklist, ..back })
                &&& after.builder.worklist.len() == b.worklist.len()
                &&& forall|j: int|
                    0 <= j < v.waiting ==> #[trigger] after.builder.worklist[j] == b.worklist[fresh
                        + j]
                &&& forall|j: int|
                    v.waiting <= j < b.worklist.len() ==> #[trigger] after.builder.worklist[j]
                        == b.worklist[j - v.waiting]
                &&& after == (ResolutionView {
                    builder: after.builder,
                    waiting: after.waiting,
                    stuck: after.stuck,
                    ..v
                })
            }
        }),
{
}

/// A package that is put off goes to the end of the worklist, and counts as put off; the error of
/// the first such package is kept.
pub proof fn law_putting_off_keeps_the_first_error(v: ResolutionView, name: Name, e: ErrorView)
    ensures
        ({
            let after = crate::resolver::putting_off(v, name, e);
            &&& after.builder.worklist == v.builder.worklist.push(name)
            &&& after.builder == (BuilderView { worklist: after.builder.worklist, ..v.builder })
            &&& after.waiting == v.waiting + 1
            &&& v.stuck is Some ==> after.stuck == v.stuck
            &&& v.stuck is None ==> after.stuck == Some(e)
            &&& after == (ResolutionView {
                builder: after.builder,
                waiting: after.waiting,
                stuck: after.stuck,
                ..v
            })
        }),
{
}

/// Online, a resolution comes to wait for the download of the chosen version, from the registry
/// and the repository of the package. Offline it fails, with every requirement on the package.
pub proof fn law_download_is_online_alone(
    v: ResolutionView,
    name: Name,
    registry: Seq<char>,
    repository: Seq<char>,
    chosen: VersionView,
    pick: PickView,
    outcome: Result<ResolutionView, ErrorView>,
)
    requires
        crate::resolver::downloads(v, name, registry, repository, chosen, pick, outcome),
    ensures
        v.builder.network_mode is Online ==> {
            let after = outcome->Ok_0;
            &&& outcome is Ok
            &&& after.stage is Downloading
            &&& after.stage->Downloading_name == name
            &&& after.stage->Downloading_registry == registry
            &&& after.stage->Downloading_repository == repository
            &&& after.stage->Downloading_chosen == chosen
            &&& after.stage->Downloading_pick == pick
            &&& after == (ResolutionView { stage: after.stage, ..v })
        },
        v.builder.network_mode is Offline ==> {
            let e = outcome->Err_0;
            &&& outcome is Err
            &&& v.stuck is Some ==> e == v.stuck->0
            &&& v.stuck is None ==> {
                &&& e is Offline
                &&& e->Offline_name == name
                &&& e->Offline_requirements.len() == v.builder.requirements[name].len()
                &&& forall|i: int|
                    0 <= i < e->Offline_requirements.len() ==> #[trigger] e->Offline_requirements[i]
                        == v.builder.requirements[name][i].req
            }
        },
{
}

/// A walk that fails ends the resolution. One that does not goes on from the state that it leads
/// to, with the packages that were put off behind those it has scheduled, and with the manifest of
/// the package and what its version was chosen from kept.
pub proof fn law_resolution_goes_on_from_a_walk(
    v: ResolutionView,
    name: Name,
    node: NodeView,
    base: Seq<Seq<char>>,
    manifest: ManifestView,
    pick: Option<PickView>,
    outcome: Result<ResolutionView, ErrorView>,
)
    requires
        crate::resolver::walks(v, name, node, base, manifest, pick, outcome),
        v.waiting <= v.builder.worklist.len(),
    ensures
        exists|error: Option<ErrorView>, walked: BuilderView| #[trigger]
            crate::model::is_walk_of(v.builder, name, node, base, manifest, error, walked)
                && match error {
                Some(e) => outcome is Err && outcome->Err_0 == match v.stuck {
                    Some(first) => first,
                    None => e,
                },
                None => {
                    let len = v.builder.worklist.len() as int;
                    let start = len - v.waiting;
                    crate::resolver::goes_on(
                        ResolutionView {
                            builder: BuilderView {
                                worklist: walked.worklist.take(start) + walked.worklist.skip(len)
                                    + walked.worklist.subrange(start, len),
                                ..walked
                            },
                            stage: StageView::Done,
                            manifests: v.manifests.insert(name, manifest),
                            picked: match pick {
                                Some(pick) => v.picked.insert(name, pick),
                                None => v.picked.remove(name),
                            },
                            ..v
                        },
                        outcome,
                    )
                },
            },
{
    let len = v.builder.worklist.len() as int;
    let (error, walked) = choose|error: Option<ErrorView>, walked: BuilderView| #[trigger]
        crate::model::is_walk_of(v.builder, name, node, base, manifest, error, walked)
            && match error {
            None => crate::resolver::goes_on(
                ResolutionView {
                    builder: crate::model::behind(walked, len - v.waiting, len),
                    stage: StageView::Done,
                    manifests: v.manifests.insert(name, manifest),
                    picked: crate::resolver::with_pick(v.picked, name, pick),
                    ..v
                },
                outcome,
            ),
            Some(e) => outcome == crate::resolver::failure(v, e),
        };
    assert(crate::model::is_walk_of(v.builder, name, node, base, manifest, error, walked));
}

/// Told the published versions, a resolution downloads one of them that every requirement which
/// counts admits, such that no other of these has greater numbers or is the release that it is a
/// prerelease of, from the registry and the repository that it asked.
pub proof fn law_highest_admitted_version_is_downloaded(
    v: ResolutionView,
    versions: Seq<VersionView>,
    outcome: Result<ResolutionView, ErrorView>,
    w: VersionView,
)
    requires
        v.stage is Listing,
        crate::resolver::is_led_by(v, AnswerView::Versions(versions), outcome),
        v.builder.network_mode is Online,
        ({
            let name = v.stage->Listing_name;
            let b = crate::model::reconsidered(v.builder, name, versions);
            &&& crate::model::needs_visit(b, name)
            &&& versions.contains(w)
            &&& forall|i: int|
                0 <= i < b.requirements[name].len() ==> crate::version::matches_release(
                    (#[trigger] b.requirements[name][i]).req,
                    w.major,
                    w.minor,
                    w.patch,
                    w.pre,
                )
        }),
    ensures
        ({
            let name = v.stage->Listing_name;
            let b = crate::model::reconsidered(v.builder, name, versions);
            let after = outcome->Ok_0;
            let c = after.stage->Downloading_chosen;
            &&& outcome is Ok
            &&& after.stage is Downloading
            &&& after.stage->Downloading_name == name
            &&& after.stage->Downloading_registry == v.stage->Listing_registry
            &&& after.stage->Downloading_repository == v.stage->Listing_repository
            &&& versions.contains(c)
            &&& forall|i: int|
                0 <= i < b.requirements[name].len() ==> crate::version::matches_release(
                    (#[trigger] b.requirements[name][i]).req,
                    c.major,
                    c.minor,
                    c.patch,
                    c.pre,
                )
            &&& w == c || crate::version::precedes(w, c)
            &&& w.major <= c.major
            &&& w.major == c.major ==> w.minor <= c.minor
            &&& w.major == c.major && w.minor == c.minor ==> w.patch <= c.patch
            &&& w.major == c.major && w.minor == c.minor && w.patch == c.patch && w.pre.len() == 0
                ==> c.pre.len() == 0
            &&& after.stage->Downloading_pick.versions == versions
            &&& after.stage->Downloading_pick.reqs.len() == b.requirements[name].len()
            &&& forall|i: int|
                0 <= i < b.requirements[name].len() ==> after.stage->Downloading_pick.reqs[i] == (
                #[trigger] b.requirements[name][i]).req
            &&& after == (ResolutionView {
                stage: after.stage,
                ..crate::resolver::making_way(
                    ResolutionView { builder: b, stage: StageView::Done, ..v },
                    name,
                )
            })
        }),
{
    let name = v.stage->Listing_name;
    let registry = v.stage->Listing_registry;
    let repository = v.stage->Listing_repository;
    let b = crate::model::reconsidered(v.builder, name, versions);
    let edges = b.requirements[name];
    let reqs = crate::model::edge_reqs(edges);
    let now = ResolutionView { builder: b, stage: StageView::Done, ..v };
    let way = crate::resolver::making_way(now, name);
    let pick = PickView { versions, reqs };
    assert(crate::pick::satisfies_all(reqs, w)) by {
        assert forall|i: int| 0 <= i < reqs.len() implies crate::version::satisfies(
            #[trigger] reqs[i],
            w,
        ) by {
            assert(reqs[i] == edges[i].req);
        }
    }
    assert(!crate::pick::is_pick(versions, reqs, None));
    let c = choose|c: VersionView|
        crate::pick::is_pick(versions, reqs, Some(c)) && #[trigger] crate::resolver::downloads(
            way,
            name,
            registry,
            repository,
            c,
            pick,
            outcome,
        );
    assert(way.builder.network_mode is Online);
    assert forall|i: int| 0 <= i < edges.len() implies crate::version::matches_release(
        (#[trigger] edges[i]).req,
        c.major,
        c.minor,
        c.patch,
        c.pre,
    ) by {
        assert(crate::version::satisfies(reqs[i], c));
    }
}

/// Told the published versions, a resolution goes on with other packages where the package is
/// resolved to a version that the requirements which count admit.
pub proof fn law_package_that_fits_again_is_left(
    v: ResolutionView,
    versions: Seq<VersionView>,
    outcome: Result<ResolutionView, ErrorView>,
)
    requires
        v.stage is Listing,
        crate::resolver::is_led_by(v, AnswerView::Versions(versions), outcome),
        !crate::model::needs_visit(
            crate::model::reconsidered(v.builder, v.stage->Listing_name, versions),
            v.stage->Listing_name,
        ),
    ensures
        crate::resolver::goes_on(
            ResolutionView {
                builder: crate::model::reconsidered(v.builder, v.stage->Listing_name, versions),
                stage: StageView::Done,
                ..v
            },
            outcome,
        ),
{
}

/// Told the published versions of which none is admitted by every requirement that counts, a
/// resolution puts the package off, with an error that names it, those requirements and all
/// versions.
pub proof fn law_package_without_a_version_is_put_off(
    v: ResolutionView,
    versions: Seq<VersionView>,
    outcome: Result<ResolutionView, ErrorView>,
)
    requires
        v.stage is Listing,
        crate::resolver::is_led_by(v, AnswerView::Versions(versions), outcome),
        ({
            let name = v.stage->Listing_name;
            let b = crate::model::reconsidered(v.builder, name, versions);
            &&& crate::model::needs_visit(b, name)
            &&& forall|w: VersionView| #[trigger]
                versions.contains(w) ==> exists|i: int|
                    0 <= i < b.requirements[name].len() && !crate::version::matches_release(
                        (#[trigger] b.requirements[name][i]).req,
                        w.major,
                        w.minor,
                        w.patch,
                        w.pre,
                    )
        }),
    ensures
        ({
            let name = v.stage->Listing_name;
            let b = crate::model::reconsidered(v.builder, name, versions);
            let reqs = Seq::new(b.requirements[name].len(), |i: int| b.requirements[name][i].req);
            crate::resolver::goes_on(
                ResolutionView {
                    builder: BuilderView { worklist: b.worklist.push(name), ..b },
                    stage: StageView::Done,
                    waiting: v.waiting + 1,
                    stuck: match v.stuck {
                        Some(first) => Some(first),
                        None => Some(
                            ErrorView::NoCompatibleVersion {
                                package: name,
                                requirements: reqs,
                                available_versions: versions,
                            },
                        ),
                    },
                    ..v
                },
                outcome,
            )
        }),
{
    let name = v.stage->Listing_name;
    let b = crate::model::reconsidered(v.builder, name, versions);
    let edges = b.requirements[name];
    let reqs = crate::model::edge_reqs(edges);
    assert(reqs =~= Seq::new(edges.len(), |i: int| edges[i].req));
    assert forall|w: VersionView| #[trigger] versions.contains(w) implies
        !crate::pick::satisfies_all(reqs, w) by {
        let i = choose|i: int|
            0 <= i < edges.len() && !crate::version::matches_release(
                (#[trigger] edges[i]).req,
                w.major,
                w.minor,
                w.patch,
                w.pre,
            );
        assert(!crate::version::satisfies(reqs[i], w));
    }
    assert(crate::pick::is_pick(versions, reqs, None));
}

/// Told its manifest, a resolution records a local package at its path, which the paths of its
/// local dependencies are relative to.
pub proof fn law_manifest_that_is_read_is_walked(
    v: ResolutionView,
    manifest: ManifestView,
    outcome: Result<ResolutionView, ErrorView>,
)
    requires
        v.stage is Reading,
        crate::resolver::is_led_by(v, AnswerView::Manifest(manifest), outcome),
    ensures
        crate::resolver::walks(
            v,
            v.stage->Reading_name,
            NodeView {
                name: v.stage->Reading_name,
                package_type: manifest.package_type,
                source: SourceView::Local { path: v.stage->path },
                dependencies: Seq::new(
                    manifest.dependencies.len(),
                    |i: int| manifest.dependencies[i].package,
                ),
                version: seq!['*'],
                resolved_version: None,
            },
            v.stage->path,
            manifest,
            None,
            outcome,
        ),
{
    assert(manifest.dependency_names() =~= Seq::new(
        manifest.dependencies.len(),
        |i: int| manifest.dependencies[i].package,
    ));
}

/// Told its manifest, from the cache or from a download, a resolution records a remote package at
/// the version that was chosen.
pub proof fn law_manifest_that_is_fetched_is_walked(
    v: ResolutionView,
    manifest: ManifestView,
    outcome: Result<ResolutionView, ErrorView>,
    name: Name,
    registry: Seq<char>,
    repository: Seq<char>,
    chosen: VersionView,
    pick: PickView,
)
    requires
        ({
            ||| v.stage == (StageView::Downloading { name, registry, repository, chosen, pick })
                && crate::resolver::is_led_by(v, AnswerView::Manifest(manifest), outcome)
            ||| v.stage is LookingUp && v.stage == (StageView::LookingUp {
                name,
                registry,
                repository,
                chosen,
                file: v.stage->file,
                pick,
            }) && crate::resolver::is_led_by(v, AnswerView::Cached(Some(manifest)), outcome)
        }),
    ensures
        crate::resolver::walks(
            v,
            name,
            NodeView {
                name,
                package_type: manifest.package_type,
                source: SourceView::Remote { registry, repository },
                dependencies: Seq::new(
                    manifest.dependencies.len(),
                    |i: int| manifest.dependencies[i].package,
                ),
                version: seq!['='] + crate::version::release_text(chosen),
                resolved_version: Some(chosen),
            },
            v.builder.base_path,
            manifest,
            Some(pick),
            outcome,
        ),
{
    assert(manifest.dependency_names() =~= Seq::new(
        manifest.dependencies.len(),
        |i: int| manifest.dependencies[i].package,
    ));
}

/// Told that its file is not in the cache, a resolution downloads a package at the pinned version.
pub proof fn law_file_that_is_not_cached_is_downloaded(
    v: ResolutionView,
    outcome: Result<ResolutionView, ErrorView>,
)
    requires
        v.stage is LookingUp,
        crate::resolver::is_led_by(v, AnswerView::Cached(None), outcome),
    ensures
        crate::resolver::downloads(
            v,
            v.stage->LookingUp_name,
            v.stage->LookingUp_registry,
            v.stage->LookingUp_repository,
            v.stage->LookingUp_chosen,
            v.stage->LookingUp_pick,
            outcome,
        ),
{
}

/// In a finished graph every dependency, of the root manifest or of a package, has a package: a
/// local one if and only if it is local, and else one of a version that the requirement written in
/// the dependency admits.
pub proof fn law_graph_meets_what_the_manifests_state(
    v: ResolutionView,
    d: DependencyView,
)
    requires
        crate::resolver::is_graph_of(v),
        ({
            ||| v.root.contains(d)
            ||| exists|n: Name| #[trigger]
                v.builder.nodes.contains_key(n) && v.manifests[n].dependencies.contains(d)
        }),
    ensures
        v.builder.nodes.contains_key(d.package),
        v.builder.nodes[d.package].name == d.package,
        match d.manifest {
            DependencyManifestView::Local { path } => {
                &&& v.builder.nodes[d.package].source is Local
                &&& v.builder.nodes[d.package].version == seq!['*']
                &&& v.builder.nodes[d.package].resolved_version is None
            },
            DependencyManifestView::Remote { registry, repository, version } => {
                let r = v.builder.nodes[d.package].resolved_version->0;
                &&& v.builder.nodes[d.package].source is Remote
                &&& v.builder.nodes[d.package].resolved_version is Some
                &&& crate::version::matches_release(version, r.major, r.minor, r.patch, r.pre)
                &&& v.builder.nodes[d.package].version == seq!['=']
                    + crate::version::release_text(r)
            },
        },
{
    let nodes = v.builder.nodes;
    if v.root.contains(d) {
        let i = v.root.index_of(d);
        assert(crate::soundness::is_met(nodes, v.root[i]));
    } else {
        let n = choose|n: Name| #[trigger]
            nodes.contains_key(n) && v.manifests[n].dependencies.contains(d);
        let i = v.manifests[n].dependencies.index_of(d);
        assert(crate::soundness::is_met(nodes, v.manifests[n].dependencies[i]));
    }
    assert(nodes.contains_key(d.package));
}

/// In a finished graph every package has the type and the dependencies that its manifest states,
/// and every package that it depends on is there; some path leads to it from a dependency of the
/// root manifest, from each package to one that it depends on.
pub proof fn law_graph_holds_what_the_root_leads_to(v: ResolutionView, n: Name)
    requires
        crate::resolver::is_graph_of(v),
        v.builder.nodes.contains_key(n),
    ensures
        v.builder.nodes[n].name == n,
        v.manifests.contains_key(n),
        v.builder.nodes[n].package_type == v.manifests[n].package_type,
        v.builder.nodes[n].dependencies.len() == v.manifests[n].dependencies.len(),
        forall|i: int|
            0 <= i < v.manifests[n].dependencies.len() ==> v.builder.nodes[n].dependencies[i] == (
            #[trigger] v.manifests[n].dependencies[i]).package,
        forall|d: Name| #[trigger]
            v.builder.nodes[n].dependencies.contains(d) ==> v.builder.nodes.contains_key(d),
        exists|path: Seq<Name>|
            #![trigger path.last()]
            {
                &&& path.len() > 0
                &&& path.last() == n
                &&& exists|i: int|
                    0 <= i < v.root.len() && (#[trigger] v.root[i]).package == path[0]
                &&& forall|i: int|
                    0 <= i < path.len() - 1 ==> v.builder.nodes.contains_key(#[trigger] path[i])
                        && v.builder.nodes[path[i]].dependencies.contains(path[i + 1])
            },
{
    let nodes = v.builder.nodes;
    let path = choose|path: Seq<Name>| crate::reachability::is_path(nodes, v.root, path, n);
    assert(crate::reachability::is_path(nodes, v.root, path, n));
    let names = crate::model::names_of(v.root);
    let i = names.index_of(path.first());
    assert(names[i] == v.root[i].package);
    assert forall|i: int| 0 <= i < path.len() - 1 implies nodes.contains_key(#[trigger] path[i])
        && nodes[path[i]].dependencies.contains(path[i + 1]) by {
        assert(crate::graph::depends(nodes, path[i], path[i + 1]));
    }
    assert(path.last() == n);
    assert forall|d: Name| #[trigger] nodes[n].dependencies.contains(d) implies nodes.contains_key(
        d,
    ) by {
        assert(crate::graph::depends(nodes, n, d));
    }
}

/// In a finished graph the version of every remote package is one that it was chosen from, is
/// admitted by the requirements that it was chosen under, and no other such version has greater
/// numbers, or is the release that it is a prerelease of.
pub proof fn law_graph_has_the_highest_versions(v: ResolutionView, n: Name, w: VersionView)
    requires
        crate::resolver::is_graph_of(v),
        v.builder.nodes.contains_key(n),
        v.builder.nodes[n].source is Remote,
        v.picked[n].versions.contains(w),
        forall|i: int|
            0 <= i < v.picked[n].reqs.len() ==> crate::version::matches_release(
                #[trigger] v.picked[n].reqs[i],
                w.major,
                w.minor,
                w.patch,
                w.pre,
            ),
    ensures
        v.picked.contains_key(n),
        v.builder.nodes[n].resolved_version is Some,
        ({
            let c = v.builder.nodes[n].resolved_version->0;
            &&& v.picked[n].versions.contains(c)
            &&& forall|i: int|
                0 <= i < v.picked[n].reqs.len() ==> crate::version::matches_release(
                    #[trigger] v.picked[n].reqs[i],
                    c.major,
                    c.minor,
                    c.patch,
                    c.pre,
                )
            &&& w == c || crate::version::precedes(w, c)
            &&& w.major <= c.major
            &&& w.major == c.major ==> w.minor <= c.minor
            &&& w.major == c.major && w.minor == c.minor ==> w.patch <= c.patch
            &&& w.major == c.major && w.minor == c.minor && w.patch == c.patch && w.pre.len() == 0
                ==> c.pre.len() == 0
        }),
{
    let c = v.builder.nodes[n].resolved_version->0;
    crate::package_laws::law_pick_is_the_highest_that_is_admitted(
        v.picked[n].versions,
        v.picked[n].reqs,
        c,
        w,
    );
}

} // verus!
