//! Why equal answers lead to equal graphs.
use crate::error::ErrorView;
use crate::graph::NodeView;
use crate::manifest::{DependencyView, ManifestView};
use crate::model::BuilderView;
use crate::package::Name;
use crate::resolver::{AnswerView, PickView, ResolutionView};
use crate::version::VersionView;
use vstd::prelude::*;

verus! {

/// One package is the next, if any is.
pub proof fn law_next_is_determined(b: BuilderView, i: int, j: int)
    requires
        crate::model::next_due(b, i),
        crate::model::next_due(b, j),
    ensures
        i == j,
        !crate::model::none_due(b),
{
    assert(crate::model::is_due(b, b.worklist[i]));
    assert(crate::model::is_due(b, b.worklist[j]));
}

/// A walk ends in one way.
pub proof fn law_walk_is_determined(
    b: BuilderView,
    name: Name,
    node: NodeView,
    base: Seq<Seq<char>>,
    manifest: ManifestView,
    error: Option<ErrorView>,
    after: BuilderView,
    other_error: Option<ErrorView>,
    other_after: BuilderView,
)
    requires
        crate::model::is_walk_of(b, name, node, base, manifest, error, after),
        crate::model::is_walk_of(b, name, node, base, manifest, other_error, other_after),
    ensures
        error == other_error,
        after == other_after,
{
    let entered = crate::model::at_path(crate::model::with_node(b, name, node), base);
    let deps = manifest.dependencies;
    if crate::model::lib_depends_on_api(b, name, manifest.package_type) {
        let (e, f) = (error->0, other_error->0);
        let i = choose|i: int| #[trigger]
            crate::model::first_lib_edge(b, name, i) && e == (
            ErrorView::InvalidPackageTypeDependency {
                parent: match crate::model::edges_of(b, name)[i].from {
                    Some(parent) => parent,
                    None => "parent"@,
                },
                dependency: name,
            });
        let j = choose|j: int| #[trigger]
            crate::model::first_lib_edge(b, name, j) && f == (
            ErrorView::InvalidPackageTypeDependency {
                parent: match crate::model::edges_of(b, name)[j].from {
                    Some(parent) => parent,
                    None => "parent"@,
                },
                dependency: name,
            });
        assert(i == j) by {
            let edges = crate::model::edges_of(b, name);
            assert(crate::model::parent_type(b, edges[i].from) == Some(
                crate::package::PackageType::Lib,
            ));
            assert(crate::model::parent_type(b, edges[j].from) == Some(
                crate::package::PackageType::Lib,
            ));
        }
    } else if !crate::model::no_conflict(entered, Some(name), deps) {
        let (e, f) = (error->0, other_error->0);
        let last = choose|last: BuilderView| #[trigger]
            crate::model::conflict_reported(entered, Some(name), deps, last, e) && after
                == crate::model::at_path(last, b.base_path);
        let other = choose|last: BuilderView| #[trigger]
            crate::model::conflict_reported(entered, Some(name), deps, last, f) && other_after
                == crate::model::at_path(last, b.base_path);
        lemma_conflict_is_determined(entered, Some(name), deps, last, e, other, f);
    }
}

proof fn lemma_conflict_is_determined(
    b: BuilderView,
    parent: Option<Name>,
    deps: Seq<DependencyView>,
    after: BuilderView,
    e: ErrorView,
    other_after: BuilderView,
    other: ErrorView,
)
    requires
        crate::model::conflict_reported(b, parent, deps, after, e),
        crate::model::conflict_reported(b, parent, deps, other_after, other),
    ensures
        e == other,
        after == other_after,
{
    let i = choose|i: int| #[trigger]
        crate::model::first_conflict(b, parent, deps, i) && after == crate::model::with_edges(
            b,
            parent,
            deps.take(i),
        ) && e == (ErrorView::LocalRemoteConflict { package: deps[i].package });
    let j = choose|j: int| #[trigger]
        crate::model::first_conflict(b, parent, deps, j) && other_after
            == crate::model::with_edges(b, parent, deps.take(j)) && other == (
        ErrorView::LocalRemoteConflict { package: deps[j].package });
    assert(crate::model::conflicts(crate::model::with_edges(b, parent, deps.take(i)), deps[i]));
    assert(crate::model::conflicts(crate::model::with_edges(b, parent, deps.take(j)), deps[j]));
}

/// A resolution goes on in one way.
pub proof fn law_going_on_is_determined(
    v: ResolutionView,
    first: Result<ResolutionView, ErrorView>,
    second: Result<ResolutionView, ErrorView>,
)
    requires
        crate::resolver::goes_on(v, first),
        crate::resolver::goes_on(v, second),
    ensures
        first == second,
{
    let b = v.builder;
    if crate::model::has_due_before(b, b.worklist.len() - v.waiting) {
        let i = choose|i: int| #[trigger]
            crate::model::next_due(b, i) && crate::resolver::takes_up(
                ResolutionView { builder: crate::model::popped(b, i + 1), ..v },
                b.worklist[i],
                first,
            );
        let j = choose|j: int| #[trigger]
            crate::model::next_due(b, j) && crate::resolver::takes_up(
                ResolutionView { builder: crate::model::popped(b, j + 1), ..v },
                b.worklist[j],
                second,
            );
        law_next_is_determined(b, i, j);
        let taken = ResolutionView { builder: crate::model::popped(b, i + 1), ..v };
        lemma_call_is_determined(taken, b.worklist[i], first, second);
        let marked = ResolutionView {
            seen: taken.seen.push(crate::model::course_of(taken.builder)),
            ..taken
        };
        lemma_call_is_determined(marked, b.worklist[i], first, second);
    }
}

proof fn lemma_call_is_determined(
    v: ResolutionView,
    name: Name,
    first: Result<ResolutionView, ErrorView>,
    second: Result<ResolutionView, ErrorView>,
)
    ensures
        crate::resolver::calls_for(v, name, first) && crate::resolver::calls_for(v, name, second)
            ==> first == second,
{
    if crate::resolver::calls_for(v, name, first) && crate::resolver::calls_for(v, name, second) {
        assert forall|p: crate::model::PlanView, q: crate::model::PlanView|
            crate::model::is_plan(v.builder, name, p) && crate::model::is_plan(
                v.builder,
                name,
                q,
            ) implies p == q by {
            crate::laws::law_plan_is_unique(v.builder, name, p, q);
        }
    }
}

proof fn lemma_walks_is_determined(
    v: ResolutionView,
    name: Name,
    node: NodeView,
    base: Seq<Seq<char>>,
    manifest: ManifestView,
    pick: Option<PickView>,
    first: Result<ResolutionView, ErrorView>,
    second: Result<ResolutionView, ErrorView>,
)
    requires
        crate::resolver::walks(v, name, node, base, manifest, pick, first),
        crate::resolver::walks(v, name, node, base, manifest, pick, second),
    ensures
        first == second,
{
    let len = v.builder.worklist.len() as int;
    let on = |b: BuilderView|
        ResolutionView {
            builder: crate::model::behind(b, len - v.waiting, len),
            stage: crate::resolver::StageView::Done,
            manifests: v.manifests.insert(name, manifest),
            picked: crate::resolver::with_pick(v.picked, name, pick),
            ..v
        };
    let (e, b) = choose|e: Option<ErrorView>, b: BuilderView| #[trigger]
        crate::model::is_walk_of(v.builder, name, node, base, manifest, e, b) && match e {
            None => crate::resolver::goes_on(on(b), first),
            Some(e) => first == crate::resolver::failure(v, e),
        };
    let (f, c) = choose|f: Option<ErrorView>, c: BuilderView| #[trigger]
        crate::model::is_walk_of(v.builder, name, node, base, manifest, f, c) && match f {
            None => crate::resolver::goes_on(on(c), second),
            Some(f) => second == crate::resolver::failure(v, f),
        };
    law_walk_is_determined(v.builder, name, node, base, manifest, e, b, f, c);
    if e is None {
        law_going_on_is_determined(on(b), first, second);
    }
}

proof fn lemma_selects_is_determined(
    v: ResolutionView,
    name: Name,
    registry: Seq<char>,
    repository: Seq<char>,
    versions: Seq<VersionView>,
    first: Result<ResolutionView, ErrorView>,
    second: Result<ResolutionView, ErrorView>,
)
    requires
        crate::resolver::selects(v, name, registry, repository, versions, first),
        crate::resolver::selects(v, name, registry, repository, versions, second),
    ensures
        first == second,
{
    let b = crate::model::reconsidered(v.builder, name, versions);
    let reqs = crate::model::edge_reqs(b.requirements[name]);
    let now = ResolutionView { builder: b, stage: crate::resolver::StageView::Done, ..v };
    if !crate::model::needs_visit(b, name) {
        law_going_on_is_determined(now, first, second);
    } else if !crate::pick::is_pick(versions, reqs, None) {
        let way = crate::resolver::making_way(now, name);
        let pick = PickView { versions, reqs };
        let a = choose|a: VersionView|
            crate::pick::is_pick(versions, reqs, Some(a)) && #[trigger] crate::resolver::downloads(
                way,
                name,
                registry,
                repository,
                a,
                pick,
                first,
            );
        let c = choose|c: VersionView|
            crate::pick::is_pick(versions, reqs, Some(c)) && #[trigger] crate::resolver::downloads(
                way,
                name,
                registry,
                repository,
                c,
                pick,
                second,
            );
        crate::pick::law_pick_is_unique(versions, reqs, Some(a), Some(c));
    } else {
        law_going_on_is_determined(
            crate::resolver::putting_off(
                now,
                name,
                crate::resolver::no_version(name, reqs, versions),
            ),
            first,
            second,
        );
    }
}

/// An answer leads to one outcome.
pub proof fn law_answer_determines_outcome(
    v: ResolutionView,
    answer: AnswerView,
    first: Result<ResolutionView, ErrorView>,
    second: Result<ResolutionView, ErrorView>,
)
    requires
        crate::resolver::is_led_by(v, answer, first),
        crate::resolver::is_led_by(v, answer, second),
    ensures
        first == second,
{
    match (v.stage, answer) {
        (
            crate::resolver::StageView::Reading { name, path },
            AnswerView::Manifest(manifest),
        ) => lemma_walks_is_determined(
            v,
            name,
            crate::model::local_node(name, path, manifest),
            path,
            manifest,
            None,
            first,
            second,
        ),
        (
            crate::resolver::StageView::Listing { name, registry, repository },
            AnswerView::Versions(versions),
        ) => lemma_selects_is_determined(
            v,
            name,
            registry,
            repository,
            versions,
            first,
            second,
        ),
        (
            crate::resolver::StageView::LookingUp { name, registry, repository, chosen, file, pick },
            AnswerView::Cached(Some(manifest)),
        ) => lemma_walks_is_determined(
            v,
            name,
            crate::model::remote_node(name, registry, repository, chosen, manifest),
            v.builder.base_path,
            manifest,
            Some(pick),
            first,
            second,
        ),
        (
            crate::resolver::StageView::Downloading { name, registry, repository, chosen, pick },
            AnswerView::Manifest(manifest),
        ) => lemma_walks_is_determined(
            v,
            name,
            crate::model::remote_node(name, registry, repository, chosen, manifest),
            v.builder.base_path,
            manifest,
            Some(pick),
            first,
            second,
        ),
        _ => {},
    }
}

/// Whether each answer leads from its resolution to the next.
pub open spec fn is_led_through(
    resolutions: Seq<ResolutionView>,
    answers: Seq<AnswerView>,
) -> bool {
    &&& resolutions.len() == answers.len() + 1
    &&& forall|i: int|
        0 <= i < answers.len() ==> crate::resolver::is_led_by(
            resolutions[i],
            #[trigger] answers[i],
            Ok(resolutions[i + 1]),
        )
}

/// Two resolutions that begin alike and are given the same answers end alike.
pub proof fn law_equal_answers_end_alike(
    one: Seq<ResolutionView>,
    other: Seq<ResolutionView>,
    answers: Seq<AnswerView>,
)
    requires
        is_led_through(one, answers),
        is_led_through(other, answers),
        one[0] == other[0],
    ensures
        one == other,
{
    assert forall|i: int| 0 <= i < one.len() implies #[trigger] one[i] == other[i] by {
        lemma_alike_at(one, other, answers, i);
    }
    assert(one =~= other);
}

proof fn lemma_alike_at(
    one: Seq<ResolutionView>,
    other: Seq<ResolutionView>,
    answers: Seq<AnswerView>,
    i: int,
)
    requires
        is_led_through(one, answers),
        is_led_through(other, answers),
        one[0] == other[0],
        0 <= i < one.len(),
    ensures
        one[i] == other[i],
    decreases i,
{
    if i > 0 {
        lemma_alike_at(one, other, answers, i - 1);
        let answer = answers[i - 1];
        assert(crate::resolver::is_led_by(one[i - 1], answers[i - 1], Ok(one[i - 1 + 1])));
        assert(crate::resolver::is_led_by(other[i - 1], answers[i - 1], Ok(other[i - 1 + 1])));
        law_answer_determines_outcome(one[i - 1], answer, Ok(one[i]), Ok(other[i]));
    }
}

} // verus!
