//! What holds of the versions that a resolution chooses.
use crate::error::ErrorView;
use crate::graph::NodeView;
use crate::manifest::ManifestView;
use crate::model::BuilderView;
use crate::package::Name;
use crate::resolver::{AnswerView, PickView, ResolutionView, StageView};
use crate::version::VersionView;
use vstd::prelude::*;

verus! {

/// A version that was chosen, and what it was chosen from.
pub struct ChoiceView {
    pub chosen: VersionView,
    pub pick: PickView,
}

/// The version that a resolution has chosen of a package, and what it was chosen from.
pub open spec fn choice_of(v: ResolutionView, name: Name) -> Option<ChoiceView> {
    match v.stage {
        StageView::LookingUp { name: of, registry, repository, chosen, file, pick } => if of == name {
            Some(ChoiceView { chosen, pick })
        } else {
            None
        },
        StageView::Downloading { name: of, registry, repository, chosen, pick } => if of == name {
            Some(ChoiceView { chosen, pick })
        } else {
            None
        },
        _ => None,
    }
}

/// Whether a package that is taken up is required, and the version that is chosen of it is the
/// highest that meets every requirement, which the version that the package is resolved to does
/// not.
pub open spec fn choice_holds(v: ResolutionView, name: Name) -> bool {
    &&& crate::resolver::package_of(v.stage) == Some(name) ==> v.builder.requirements.contains_key(
        name,
    )
    &&& choice_of(v, name) matches Some(ChoiceView { chosen, pick }) ==> {
        &&& crate::pick::is_pick(pick.versions, pick.reqs, Some(chosen))
        &&& pick.reqs == crate::model::edge_reqs(v.builder.requirements[name])
        &&& v.builder.nodes.contains_key(name) ==> v.builder.nodes[name].resolved_version is Some
            && !crate::pick::satisfies_all(
            pick.reqs,
            v.builder.nodes[name].resolved_version->0,
        )
    }
}

/// Where a resolution goes on, its choice holds, and no node changes.
proof fn lemma_going_on_keeps_node(v: ResolutionView, after: ResolutionView, name: Name)
    requires
        crate::resolver::goes_on(v, Ok(after)),
    ensures
        choice_holds(after, name),
        after.builder.nodes.contains_key(name) ==> v.builder.nodes.contains_key(name)
            && after.builder.nodes[name] == v.builder.nodes[name],
{
    let b = v.builder;
    if crate::model::has_due_before(b, b.worklist.len() - v.waiting) {
        let k = choose|k: int| #[trigger]
            crate::model::next_due(b, k) && crate::resolver::takes_up(
                ResolutionView { builder: crate::model::popped(b, k + 1), ..v },
                b.worklist[k],
                Ok(after),
            );
        let of = b.worklist[k];
        let taken = ResolutionView { builder: crate::model::popped(b, k + 1), ..v };
        let course = crate::model::course_of(taken.builder);
        let marked = ResolutionView { seen: taken.seen.push(course), ..taken };
        let now = if taken.builder.nodes.contains_key(of) {
            marked
        } else {
            taken
        };
        assert(crate::resolver::calls_for(now, of, Ok(after)));
        let c = now.builder;
        if choice_of(after, name) is Some {
            let ChoiceView { chosen, pick } = choice_of(after, name)->0;
            assert(of == name);
            let plan = choose|plan: crate::model::PlanView| #[trigger]
                crate::model::is_plan(c, name, plan) && plan is Fetch && plan->version == chosen;
            let registry = plan->Fetch_registry;
            let i = choose|i: int| #[trigger]
                crate::model::is_usable_pin(c, name, registry, i) && plan->version
                    == c.lockfile->0[i].version && plan->file == c.lockfile->0[i].file;
            crate::lockfile::law_pin_is_the_highest(c.lockfile->0, name, pick.reqs, i);
        }
    }
}

/// An answer keeps a choice in force, and changes the node of a package only where its manifest is
/// walked.
proof fn lemma_answer_keeps_node(
    v: ResolutionView,
    answer: AnswerView,
    after: ResolutionView,
    name: Name,
)
    requires
        crate::resolver::is_led_by(v, answer, Ok(after)),
        choice_holds(v, name),
    ensures
        choice_holds(after, name),
        after.builder.nodes.contains_key(name) && (crate::resolver::package_of(v.stage) == Some(
            name,
        ) ==> !(v.stage is Reading)) ==> if is_walked_by(v, answer, name) {
            after.builder.nodes[name].resolved_version == Some(choice_of(v, name)->0.chosen)
        } else {
            v.builder.nodes.contains_key(name) && after.builder.nodes[name]
                == v.builder.nodes[name]
        },
{
    match (v.stage, answer) {
        (
            StageView::Reading { name: of, path },
            AnswerView::Manifest(manifest),
        ) => lemma_walk_keeps_node(
            v,
            of,
            crate::model::local_node(of, path, manifest),
            path,
            manifest,
            None,
            after,
            name,
        ),
        (
            StageView::Listing { name: of, registry, repository },
            AnswerView::Versions(versions),
        ) => {
            let b = crate::model::reconsidered(v.builder, of, versions);
            let reqs = crate::model::edge_reqs(b.requirements[of]);
            let now = ResolutionView { builder: b, stage: StageView::Done, ..v };
            if !crate::model::needs_visit(b, of) {
                lemma_going_on_keeps_node(now, after, name);
            } else if crate::pick::is_pick(versions, reqs, None) {
                lemma_going_on_keeps_node(
                    crate::resolver::putting_off(
                        now,
                        of,
                        crate::resolver::no_version(of, reqs, versions),
                    ),
                    after,
                    name,
                );
            } else if v.builder.nodes.contains_key(of) {
                assert(after.builder.requirements.contains_key(of)
                    == b.requirements.contains_key(of));
            }
        },
        (
            StageView::LookingUp { name: of, registry, repository, chosen, file, pick },
            AnswerView::Cached(Some(manifest)),
        ) => lemma_walk_keeps_node(
            v,
            of,
            crate::model::remote_node(of, registry, repository, chosen, manifest),
            v.builder.base_path,
            manifest,
            Some(pick),
            after,
            name,
        ),
        (
            StageView::Downloading { name: of, registry, repository, chosen, pick },
            AnswerView::Manifest(manifest),
        ) => lemma_walk_keeps_node(
            v,
            of,
            crate::model::remote_node(of, registry, repository, chosen, manifest),
            v.builder.base_path,
            manifest,
            Some(pick),
            after,
            name,
        ),
        _ => {},
    }
}

proof fn lemma_walk_keeps_node(
    v: ResolutionView,
    of: Name,
    node: NodeView,
    base: Seq<Seq<char>>,
    manifest: ManifestView,
    pick: Option<PickView>,
    after: ResolutionView,
    name: Name,
)
    requires
        crate::resolver::walks(v, of, node, base, manifest, pick, Ok(after)),
    ensures
        choice_holds(after, name),
        after.builder.nodes.contains_key(name) ==> if of == name {
            after.builder.nodes[name] == node
        } else {
            v.builder.nodes.contains_key(name) && after.builder.nodes[name]
                == v.builder.nodes[name]
        },
{
    let len = v.builder.worklist.len() as int;
    let on = |b: BuilderView|
        ResolutionView {
            builder: crate::model::behind(b, len - v.waiting, len),
            stage: StageView::Done,
            manifests: v.manifests.insert(of, manifest),
            picked: crate::resolver::with_pick(v.picked, of, pick),
            ..v
        };
    let (e, b) = choose|e: Option<ErrorView>, b: BuilderView| #[trigger]
        crate::model::is_walk_of(v.builder, of, node, base, manifest, e, b) && match e {
            None => crate::resolver::goes_on(on(b), Ok(after)),
            Some(e) => Ok::<ResolutionView, ErrorView>(after) == crate::resolver::failure(v, e),
        };
    let entered = crate::model::at_path(crate::model::with_node(v.builder, of, node), base);
    crate::laws::lemma_edges_keep_the_rest(entered, Some(of), manifest.dependencies);
    lemma_going_on_keeps_node(on(b), after, name);
}

/// Whether an answer has the chosen version of a package walked.
pub open spec fn is_walked_by(v: ResolutionView, answer: AnswerView, name: Name) -> bool {
    choice_of(v, name) is Some && answer != AnswerView::Cached(None)
}

/// Whether a package stays resolved between two walks of it, and is remote.
pub open spec fn stays_resolved(
    resolutions: Seq<ResolutionView>,
    name: Name,
    i: int,
    j: int,
) -> bool {
    forall|m: int|
        i < m <= j ==> (#[trigger] resolutions[m]).builder.nodes.contains_key(name) && (
        crate::resolver::package_of(resolutions[m].stage) == Some(name) ==> !(
        resolutions[m].stage is Reading))
}

/// Whether the requirements under which a package is walked stay, from each walk between two to
/// those after it.
pub open spec fn requirements_stay(
    resolutions: Seq<ResolutionView>,
    answers: Seq<AnswerView>,
    name: Name,
    i: int,
    j: int,
) -> bool {
    forall|l: int, m: int|
        #![trigger resolutions[l], resolutions[m]]
        i <= l < m <= j && is_walked_by(resolutions[l], answers[l], name) && is_walked_by(
            resolutions[m],
            answers[m],
            name,
        ) ==> choice_of(resolutions[l], name)->0.pick.reqs.to_set().subset_of(
            choice_of(resolutions[m], name)->0.pick.reqs.to_set(),
        )
}

/// The versions at which a package is walked only fall, and none is walked twice, while the package
/// stays resolved, the requirements it was chosen under stay, and it is chosen from the same
/// versions: those that are published, or those that are pinned.
pub proof fn law_walked_versions_fall(
    resolutions: Seq<ResolutionView>,
    answers: Seq<AnswerView>,
    name: Name,
    i: int,
    j: int,
)
    requires
        crate::progress::is_beginning(resolutions[0]),
        crate::determinism::is_led_through(resolutions, answers),
        0 <= i < j < answers.len(),
        is_walked_by(resolutions[i], answers[i], name),
        is_walked_by(resolutions[j], answers[j], name),
        stays_resolved(resolutions, name, i, j),
        requirements_stay(resolutions, answers, name, i, j),
        choice_of(resolutions[i], name)->0.pick.versions == choice_of(
            resolutions[j],
            name,
        )->0.pick.versions,
    ensures
        ({
            let before = choice_of(resolutions[i], name)->0.chosen;
            let after = choice_of(resolutions[j], name)->0.chosen;
            crate::version::precedes(after, before) && !crate::version::precedes(before, after)
        }),
{
    let before = choice_of(resolutions[i], name)->0.chosen;
    let after = choice_of(resolutions[j], name)->0.chosen;
    let few = choice_of(resolutions[i], name)->0.pick;
    let more = choice_of(resolutions[j], name)->0.pick;
    lemma_choices_hold(resolutions, answers, name, i);
    lemma_choices_hold(resolutions, answers, name, j);
    lemma_pick_is_behind(resolutions, answers, name, i, j, j);
    assert(resolutions[i] == resolutions[i] && resolutions[j] == resolutions[j]);
    assert(few.reqs.to_set().subset_of(more.reqs.to_set()));
    crate::pick::law_later_pick_is_lower(few.versions, few.reqs, more.reqs, before, after);
}

/// The choices of a resolution hold from its beginning.
proof fn lemma_choices_hold(
    resolutions: Seq<ResolutionView>,
    answers: Seq<AnswerView>,
    name: Name,
    i: int,
)
    requires
        crate::progress::is_beginning(resolutions[0]),
        crate::determinism::is_led_through(resolutions, answers),
        0 <= i < resolutions.len(),
    ensures
        choice_holds(resolutions[i], name),
    decreases i,
{
    if i == 0 {
        let start = choose|start: ResolutionView| #[trigger]
            crate::resolver::goes_on(start, Ok(resolutions[0])) && start.waiting == 0
                && start.stuck is None && start.seen.len() == 0;
        lemma_going_on_keeps_node(start, resolutions[0], name);
    } else {
        lemma_choices_hold(resolutions, answers, name, i - 1);
        assert(crate::resolver::is_led_by(
            resolutions[i - 1],
            answers[i - 1],
            Ok(resolutions[i - 1 + 1]),
        ));
        lemma_answer_keeps_node(resolutions[i - 1], answers[i - 1], resolutions[i], name);
    }
}

/// Between two walks of a package its node is that of the first, or its version fails a requirement
/// of the second.
proof fn lemma_pick_is_behind(
    resolutions: Seq<ResolutionView>,
    answers: Seq<AnswerView>,
    name: Name,
    i: int,
    j: int,
    m: int,
)
    requires
        crate::progress::is_beginning(resolutions[0]),
        crate::determinism::is_led_through(resolutions, answers),
        0 <= i < m <= j < answers.len(),
        is_walked_by(resolutions[i], answers[i], name),
        is_walked_by(resolutions[j], answers[j], name),
        stays_resolved(resolutions, name, i, j),
        requirements_stay(resolutions, answers, name, i, j),
    ensures
        ({
            let before = choice_of(resolutions[i], name)->0.chosen;
            let fails = !crate::pick::satisfies_all(
                choice_of(resolutions[j], name)->0.pick.reqs,
                before,
            );
            &&& fails || resolutions[m].builder.nodes[name].resolved_version == Some(before)
            &&& m == j ==> fails
        }),
    decreases m,
{
    let before = choice_of(resolutions[i], name)->0.chosen;
    let more = choice_of(resolutions[j], name)->0.pick.reqs;
    assert(resolutions[m].builder.nodes.contains_key(name));
    assert(crate::resolver::is_led_by(
        resolutions[m - 1],
        answers[m - 1],
        Ok(resolutions[m - 1 + 1]),
    ));
    lemma_choices_hold(resolutions, answers, name, m - 1);
    lemma_choices_hold(resolutions, answers, name, m);
    if m - 1 > i {
        lemma_pick_is_behind(resolutions, answers, name, i, j, m - 1);
        assert(resolutions[m - 1].builder.nodes.contains_key(name));
        if crate::pick::satisfies_all(more, before) && is_walked_by(
            resolutions[m - 1],
            answers[m - 1],
            name,
        ) {
            let some = choice_of(resolutions[m - 1], name)->0.pick.reqs;
            assert(resolutions[j] == resolutions[j]);
            assert(some.to_set().subset_of(more.to_set()));
            crate::pick::lemma_fewer_requirements(some, more, before);
        }
    }
    lemma_answer_keeps_node(resolutions[m - 1], answers[m - 1], resolutions[m], name);
}

} // verus!
