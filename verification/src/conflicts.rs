//! What holds of packages that no version fits, and of the failure of a resolution.
use crate::error::ErrorView;
use crate::graph::NodeView;
use crate::manifest::ManifestView;
use crate::model::{BuilderView, EdgeView};
use crate::package::Name;
use crate::resolver::{AnswerView, PickView, ResolutionView, StageView};
use crate::version::VersionView;
use vstd::prelude::*;

verus! {

/// A conflict goes by nodes and requirements alone.
pub proof fn lemma_same_conflict(b: BuilderView, after: BuilderView, e: ErrorView)
    requires
        crate::model::is_conflict(b, e),
        after.nodes == b.nodes,
        after.requirements == b.requirements,
    ensures
        crate::model::is_conflict(after, e),
{
    if let ErrorView::NoCompatibleVersion { package, requirements, available_versions } = e {
        assert forall|i: int| 0 <= i < requirements.len() implies crate::model::is_still_asked(
            after,
            package,
            #[trigger] requirements[i],
        ) by {
            assert(crate::model::is_still_asked(b, package, requirements[i]));
            let edges = b.requirements[package];
            let j = choose|j: int|
                0 <= j < edges.len() && crate::model::is_live(b, package, #[trigger] edges[j])
                    && edges[j].req == requirements[i];
            assert(crate::model::is_live(after, package, after.requirements[package][j]));
        }
    }
}

/// A conflict stays when requirements that are no longer asked for are dropped.
pub proof fn lemma_conflict_outlasts_pruning(b: BuilderView, name: Name, e: ErrorView)
    requires
        crate::model::is_conflict(b, e),
        b.requirements.contains_key(name),
    ensures
        crate::model::is_conflict(crate::model::pruned(b, name), e),
{
    let after = crate::model::pruned(b, name);
    if let ErrorView::NoCompatibleVersion { package, requirements, available_versions } = e {
        assert forall|i: int| 0 <= i < requirements.len() implies crate::model::is_still_asked(
            after,
            package,
            #[trigger] requirements[i],
        ) by {
            assert(crate::model::is_still_asked(b, package, requirements[i]));
            let edges = b.requirements[package];
            let j = choose|j: int|
                0 <= j < edges.len() && crate::model::is_live(b, package, #[trigger] edges[j])
                    && edges[j].req == requirements[i];
            if package == name {
                assert(edges.contains(edges[j]));
                crate::soundness::lemma_live_stays(b, name, edges[j]);
                let left = after.requirements[package];
                let l = left.index_of(edges[j]);
                assert(crate::model::is_live(after, package, left[l]));
            } else {
                assert(crate::model::is_live(after, package, after.requirements[package][j]));
            }
        }
    }
}

/// A conflict stays when a package makes way that the requirements on its package do not come from.
pub proof fn lemma_conflict_outlasts_retraction(b: BuilderView, name: Name, e: ErrorView)
    requires
        crate::model::is_conflict(b, e),
        e->NoCompatibleVersion_package != name,
        crate::model::is_untouched(b, crate::model::retracted(b, name), e),
    ensures
        crate::model::is_conflict(crate::model::retracted(b, name), e),
        !crate::model::has_edge_from(
            crate::model::retracted(b, name).requirements[e->NoCompatibleVersion_package],
            Some(name),
        ),
{
    let after = crate::model::retracted(b, name);
    if let ErrorView::NoCompatibleVersion { package, requirements, available_versions } = e {
        let edges = b.requirements[package];
        crate::lists::lemma_filter_contents(
            edges,
            |e: EdgeView| !crate::model::is_retracted(b, name, e),
        );
        assert forall|i: int| 0 <= i < requirements.len() implies crate::model::is_still_asked(
            after,
            package,
            #[trigger] requirements[i],
        ) by {
            assert(crate::model::is_still_asked(b, package, requirements[i]));
            let j = choose|j: int|
                0 <= j < edges.len() && crate::model::is_live(b, package, #[trigger] edges[j])
                    && edges[j].req == requirements[i];
            assert(!crate::model::is_retracted(b, name, after.requirements[package][j]));
            assert(crate::model::is_live(after, package, after.requirements[package][j]));
        }
        if crate::model::has_edge_from(after.requirements[package], Some(name)) {
            let k = choose|k: int|
                0 <= k < after.requirements[package].len() && (
                #[trigger] after.requirements[package][k]).from == Some(name);
            assert(!crate::model::is_retracted(b, name, after.requirements[package][k]));
        }
    }
}

/// A conflict stays when a package is resolved that its requirements do not come from.
pub proof fn lemma_conflict_outlasts_walk(
    b: BuilderView,
    name: Name,
    node: NodeView,
    base: Seq<Seq<char>>,
    manifest: ManifestView,
    after: BuilderView,
    e: ErrorView,
)
    requires
        crate::model::is_conflict(b, e),
        !b.nodes.contains_key(name) || !crate::model::has_edge_from(
            b.requirements[e->NoCompatibleVersion_package],
            Some(name),
        ),
        crate::model::is_walk_of(b, name, node, base, manifest, None, after),
    ensures
        crate::model::is_conflict(after, e),
{
    let entered = crate::model::at_path(crate::model::with_node(b, name, node), base);
    crate::laws::lemma_edges_keep_the_rest(entered, Some(name), manifest.dependencies);
    if let ErrorView::NoCompatibleVersion { package, requirements, available_versions } = e {
        crate::laws::law_edges_only_extend(
            entered,
            Some(name),
            manifest.dependencies,
            package,
        );
        assert forall|i: int| 0 <= i < requirements.len() implies crate::model::is_still_asked(
            after,
            package,
            #[trigger] requirements[i],
        ) by {
            assert(crate::model::is_still_asked(b, package, requirements[i]));
            let edges = b.requirements[package];
            let j = choose|j: int|
                0 <= j < edges.len() && crate::model::is_live(b, package, #[trigger] edges[j])
                    && edges[j].req == requirements[i];
            if edges[j].from == Some(name) {
                assert(crate::model::has_edge_from(edges, Some(name)));
            }
            let more = after.requirements[package];
            assert(more.subrange(0, edges.len() as int)[j] == edges[j]);
            assert(crate::model::is_live(after, package, more[j]));
        }
    }
}

/// A package that no version fits is in conflict.
pub proof fn lemma_is_conflict(b: BuilderView, name: Name, versions: Seq<VersionView>)
    requires
        crate::model::is_reached(b, None, name),
        crate::pick::is_pick(
            versions,
            crate::model::edge_reqs(
                crate::model::reconsidered(b, name, versions).requirements[name],
            ),
            None,
        ),
    ensures
        ({
            let now = crate::model::reconsidered(b, name, versions);
            let e = crate::resolver::no_version(name, crate::model::edge_reqs(now.requirements[name]), versions);
            crate::model::is_conflict(b, e) && crate::model::is_conflict(now, e)
        }),
{
    let now = crate::model::reconsidered(b, name, versions);
    let left = now.requirements[name];
    let reqs = crate::model::edge_reqs(left);
    let all = b.requirements[name];
    crate::soundness::law_pruning_leaves_what_is_asked_for(b, name);
    crate::lists::lemma_filter_contents(all, |e: EdgeView| crate::model::is_live(b, name, e));
    let path = choose|path: Seq<Name>| #[trigger]
        crate::model::is_chain(b, None, path) && path.last() == name;
    assert(crate::model::is_root(b, path[0]));
    if path.len() > 1 {
        assert(crate::model::leads(b, path[path.len() - 2], path[path.len() - 2 + 1]));
    }
    assert forall|i: int| 0 <= i < reqs.len() implies crate::model::is_still_asked(
        b,
        name,
        #[trigger] reqs[i],
    ) && crate::model::is_still_asked(now, name, reqs[i]) by {
        assert(crate::model::is_live(b, name, left[i]));
        assert(crate::model::is_live(now, name, now.requirements[name][i]));
        let j = all.index_of(left[i]);
        assert(crate::model::is_live(b, name, b.requirements[name][j]));
    }
}

/// A resolution that goes on waits for no download, and fails for want of a version only as a
/// package did that was put off.
pub proof fn lemma_going_on(v: ResolutionView, outcome: Result<ResolutionView, ErrorView>)
    requires
        crate::resolver::goes_on(v, outcome),
    ensures
        match outcome {
            Ok(after) => !(after.stage is Downloading),
            Err(e) => match v.stuck {
                Some(first) => e == first,
                None => !(e is NoCompatibleVersion),
            },
        },
{
    let b = v.builder;
    if crate::model::has_due_before(b, b.worklist.len() - v.waiting) {
        let k = choose|k: int| #[trigger]
            crate::model::next_due(b, k) && crate::resolver::takes_up(
                ResolutionView { builder: crate::model::popped(b, k + 1), ..v },
                b.worklist[k],
                outcome,
            );
        let name = b.worklist[k];
        let taken = ResolutionView { builder: crate::model::popped(b, k + 1), ..v };
        let course = crate::model::course_of(taken.builder);
        if !taken.builder.nodes.contains_key(name) {
            assert(crate::resolver::calls_for(taken, name, outcome));
        } else if !taken.seen.contains(course) {
            let marked = ResolutionView { seen: taken.seen.push(course), ..taken };
            assert(crate::resolver::calls_for(marked, name, outcome));
        }
    }
}

/// How a resolution fails that walks a manifest.
proof fn lemma_walk_fails(
    v: ResolutionView,
    name: Name,
    node: NodeView,
    base: Seq<Seq<char>>,
    manifest: ManifestView,
    pick: Option<PickView>,
    e: ErrorView,
)
    requires
        crate::resolver::walks(v, name, node, base, manifest, pick, Err(e)),
    ensures
        match v.stuck {
            Some(first) => e == first,
            None => !(e is NoCompatibleVersion),
        },
{
    let len = v.builder.worklist.len() as int;
    let (error, walked) = choose|error: Option<ErrorView>, walked: BuilderView| #[trigger]
        crate::model::is_walk_of(v.builder, name, node, base, manifest, error, walked)
            && match error {
            None => crate::resolver::goes_on(
                ResolutionView {
                    builder: crate::model::behind(walked, len - v.waiting, len),
                    stage: StageView::Done,
                    manifests: v.manifests.insert(name, manifest),
                    picked: crate::resolver::with_pick(v.picked, name, pick),
                    ..v
                },
                Err(e),
            ),
            Some(error) => Err::<ResolutionView, ErrorView>(e) == crate::resolver::failure(
                v,
                error,
            ),
        };
    if error is None {
        lemma_going_on(
            ResolutionView {
                builder: crate::model::behind(walked, len - v.waiting, len),
                stage: StageView::Done,
                manifests: v.manifests.insert(name, manifest),
                picked: crate::resolver::with_pick(v.picked, name, pick),
                ..v
            },
            Err(e),
        );
    }
}

/// How a resolution fails that chooses among published versions: as a package did that was put off,
/// or for want of a version.
proof fn lemma_choice_fails(
    v: ResolutionView,
    name: Name,
    registry: Seq<char>,
    repository: Seq<char>,
    versions: Seq<VersionView>,
    e: ErrorView,
)
    requires
        crate::resolver::selects(v, name, registry, repository, versions, Err(e)),
    ensures
        ({
            let b = crate::model::reconsidered(v.builder, name, versions);
            let reqs = crate::model::edge_reqs(b.requirements[name]);
            ||| v.stuck == Some(e)
            ||| v.stuck is None && !(e is NoCompatibleVersion)
            ||| v.stuck is None && crate::pick::is_pick(versions, reqs, None) && e
                == crate::resolver::no_version(name, reqs, versions)
            ||| v.builder.network_mode == crate::package::NetworkMode::Offline && !(
            e is NoCompatibleVersion)
        }),
{
    let b = crate::model::reconsidered(v.builder, name, versions);
    let reqs = crate::model::edge_reqs(b.requirements[name]);
    let now = ResolutionView { builder: b, stage: StageView::Done, ..v };
    if !crate::model::needs_visit(b, name) {
        lemma_going_on(now, Err(e));
    } else if crate::pick::is_pick(versions, reqs, None) {
        lemma_going_on(
            crate::resolver::putting_off(
                now,
                name,
                crate::resolver::no_version(name, reqs, versions),
            ),
            Err(e),
        );
    }
}

/// Where a package was put off, a resolution fails as that package did, whatever came up later: of
/// several conflicts the first is reported.
pub proof fn law_first_conflict_is_reported(v: ResolutionView, answer: AnswerView, e: ErrorView)
    requires
        v.stuck is Some,
        v.builder.network_mode == crate::package::NetworkMode::Online,
        crate::resolver::is_led_by(v, answer, Err(e)),
    ensures
        v.stuck == Some(e),
{
    lemma_answer_fails(v, answer, e);
}

proof fn lemma_answer_fails(v: ResolutionView, answer: AnswerView, e: ErrorView)
    requires
        crate::resolver::is_led_by(v, answer, Err(e)),
    ensures
        match v.stage {
            StageView::Listing { name, registry, repository } => answer is Versions
                && crate::resolver::selects(
                v,
                name,
                registry,
                repository,
                answer->Versions_0,
                Err(e),
            ),
            _ => match v.stuck {
                Some(first) => e == first,
                None => !(e is NoCompatibleVersion),
            },
        },
        v.stuck is Some && v.builder.network_mode == crate::package::NetworkMode::Online
            ==> v.stuck == Some(e),
{
    match (v.stage, answer) {
        (
            StageView::Reading { name, path },
            AnswerView::Manifest(manifest),
        ) => lemma_walk_fails(
            v,
            name,
            crate::model::local_node(name, path, manifest),
            path,
            manifest,
            None,
            e,
        ),
        (
            StageView::Listing { name, registry, repository },
            AnswerView::Versions(versions),
        ) => lemma_choice_fails(v, name, registry, repository, versions, e),
        (
            StageView::LookingUp { name, registry, repository, chosen, file, pick },
            AnswerView::Cached(Some(manifest)),
        ) => lemma_walk_fails(
            v,
            name,
            crate::model::remote_node(name, registry, repository, chosen, manifest),
            v.builder.base_path,
            manifest,
            Some(pick),
            e,
        ),
        (
            StageView::Downloading { name, registry, repository, chosen, pick },
            AnswerView::Manifest(manifest),
        ) => lemma_walk_fails(
            v,
            name,
            crate::model::remote_node(name, registry, repository, chosen, manifest),
            v.builder.base_path,
            manifest,
            Some(pick),
            e,
        ),
        _ => {},
    }
}

/// A resolution fails for want of a version only if no published version meets requirements on the
/// package that are all still asked for.
pub proof fn law_conflict_is_still_asked_for(v: ResolutionView, answer: AnswerView, e: ErrorView)
    requires
        crate::resolver::is_led_by(v, answer, Err(e)),
        e is NoCompatibleVersion,
        v.stuck matches Some(first) ==> crate::model::is_conflict(v.builder, first),
        v.stage matches StageView::Listing { name, registry, repository }
            ==> crate::model::is_reached(v.builder, None, name),
    ensures
        crate::model::is_conflict(v.builder, e),
{
    lemma_answer_fails(v, answer, e);
    if let StageView::Listing { name, registry, repository } = v.stage {
        let versions = answer->Versions_0;
        lemma_choice_fails(v, name, registry, repository, versions, e);
        if v.stuck != Some(e) {
            lemma_is_conflict(v.builder, name, versions);
        }
    }
}

} // verus!
