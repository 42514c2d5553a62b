//! Why every resolution ends.
use crate::error::ErrorView;
use crate::graph::{NodeView, SourceView};
use crate::model::{BuilderView, CourseView, EdgeView};
use crate::package::Name;
use crate::resolver::{AnswerView, ResolutionView, StageView};
use crate::version::VersionView;
use vstd::prelude::*;

verus! {

/// What the packages, their nodes, the requirements on them and their sources are taken from.
pub struct Stock {
    pub names: Set<Name>,
    pub nodes: Set<NodeView>,
    pub edges: Set<EdgeView>,
    pub sources: Set<SourceView>,
}

impl Stock {
    /// Whether there is a limited number of each.
    pub open spec fn is_limited(self) -> bool {
        self.names.finite() && self.nodes.finite() && self.edges.finite() && self.sources.finite()
    }

    /// The states that can be made of the stock.
    pub open spec fn states(self) -> Set<CourseView> {
        Set::new(
            |c: CourseView|
                {
                    &&& crate::finite::maps_of(self.names, self.nodes).contains(c.nodes)
                    &&& crate::finite::maps_of(
                        self.names,
                        crate::finite::sets_of(self.edges),
                    ).contains(c.requirements)
                    &&& crate::finite::maps_of(self.names, self.sources).contains(c.sources)
                    &&& crate::finite::lists_of(self.names, self.names.len()).contains(c.worklist)
                },
        )
    }
}

/// A limited stock makes a limited number of states.
pub proof fn law_states_are_limited(stock: Stock)
    requires
        stock.is_limited(),
    ensures
        stock.states().finite(),
{
    let nodes = crate::finite::maps_of(stock.names, stock.nodes);
    let edges = crate::finite::maps_of(stock.names, crate::finite::sets_of(stock.edges));
    let sources = crate::finite::maps_of(stock.names, stock.sources);
    let lists = crate::finite::lists_of(stock.names, stock.names.len());
    crate::finite::lemma_maps_are_finite(stock.names, stock.nodes);
    crate::finite::lemma_sets_are_finite(stock.edges);
    crate::finite::lemma_maps_are_finite(stock.names, crate::finite::sets_of(stock.edges));
    crate::finite::lemma_maps_are_finite(stock.names, stock.sources);
    crate::finite::lemma_lists_are_finite(stock.names, stock.names.len());
    crate::finite::lemma_pairs_are_finite(nodes, edges);
    crate::finite::lemma_pairs_are_finite(sources, lists);
    let left = crate::finite::pairs(nodes, edges);
    let right = crate::finite::pairs(sources, lists);
    crate::finite::lemma_pairs_are_finite(left, right);
    let all = crate::finite::pairs(left, right);
    let f = |p:
        (
            (Map<Name, NodeView>, Map<Name, Set<EdgeView>>),
            (Map<Name, SourceView>, Seq<Name>),
        )|
        CourseView {
            nodes: p.0.0,
            requirements: p.0.1,
            sources: p.1.0,
            worklist: p.1.1,
        };
    all.lemma_map_finite(f);
    assert forall|c: CourseView| #[trigger] stock.states().contains(c) implies all.map(f).contains(
        c,
    ) by {
        let p = ((c.nodes, c.requirements), (c.sources, c.worklist));
        assert(left.contains(p.0));
        assert(right.contains(p.1));
        assert(all.contains(p));
        assert(f(p) == c);
    }
    assert(stock.states().subset_of(all.map(f)));
    vstd::set_lib::lemma_set_subset_finite(all.map(f), stock.states());
}

/// Whether the state of a resolution, and the states that it has recorded, are made of the stock.
pub open spec fn is_made_of(v: ResolutionView, stock: Stock) -> bool {
    &&& stock.states().contains(crate::model::course_of(v.builder))
    &&& forall|i: int| 0 <= i < v.seen.len() ==> stock.states().contains(#[trigger] v.seen[i])
}

/// Whether no state is recorded twice, the packages that were put off are in the worklist, and a
/// package whose published versions are waited for is required.
pub open spec fn is_orderly(v: ResolutionView) -> bool {
    &&& v.seen.no_duplicates()
    &&& v.waiting <= v.builder.worklist.len()
    &&& v.stuck is None ==> v.waiting == 0
    &&& v.stage matches StageView::Listing { name, registry, repository }
        ==> v.builder.requirements.contains_key(name)
}

/// How far the packages are settled: by how many are resolved, unless a resolved package is
/// resolved again.
pub open spec fn settled(v: ResolutionView) -> nat {
    let of = crate::resolver::package_of(v.stage);
    if of is Some && v.builder.nodes.contains_key(of->0) {
        if v.stage is LookingUp || v.stage is Downloading {
            1
        } else {
            0
        }
    } else {
        v.builder.nodes.dom().len() + 1
    }
}

/// How much is left to do for the package that is taken up.
pub open spec fn calls_left(stage: StageView) -> nat {
    match stage {
        StageView::Reading { name, path } => 1,
        StageView::Listing { name, registry, repository } => 3,
        StageView::LookingUp { name, registry, repository, chosen, file, pick } => 2,
        StageView::Downloading { name, registry, repository, chosen, pick } => 1,
        StageView::Done => 0,
    }
}

/// How much is left to do at most, where there are `n` packages and `s` states.
pub open spec fn left_to_do(v: ResolutionView, n: nat, s: nat) -> int {
    ((s - v.seen.len()) * (n + 3) + (n + 1 - settled(v))) * (4 * (n + 3)) + (n + 1 - v.waiting) * 4
        + calls_left(v.stage)
}

/// Whether some answer leads from one resolution to another.
pub open spec fn can_follow(v: ResolutionView, after: ResolutionView) -> bool {
    exists|answer: AnswerView| #[trigger] crate::resolver::is_led_by(v, answer, Ok(after))
}

proof fn lemma_made_of(v: ResolutionView, stock: Stock)
    requires
        is_made_of(v, stock),
        v.seen.no_duplicates(),
        stock.is_limited(),
    ensures
        v.builder.nodes.dom().finite(),
        v.builder.nodes.dom().len() <= stock.names.len(),
        v.builder.worklist.len() <= stock.names.len(),
        v.seen.len() <= stock.states().len(),
{
    law_states_are_limited(stock);
    let nodes = v.builder.nodes;
    assert(crate::finite::maps_of(stock.names, stock.nodes).contains(
        crate::model::course_of(v.builder).nodes,
    ));
    assert(nodes.dom().subset_of(stock.names));
    vstd::set_lib::lemma_len_subset(nodes.dom(), stock.names);
    v.seen.unique_seq_to_set();
    assert forall|c: CourseView| #[trigger] v.seen.to_set().contains(
        c,
    ) implies stock.states().contains(c) by {
        let i = v.seen.index_of(c);
        assert(v.seen[i] == c);
    }
    assert(v.seen.to_set().subset_of(stock.states()));
    vstd::set_lib::lemma_len_subset(v.seen.to_set(), stock.states());
}

/// What becomes of the counts when a resolution goes on: a resolved package is taken up again in a
/// state that is recorded, or the resolved packages all count.
proof fn lemma_counts_going_on(v: ResolutionView, after: ResolutionView)
    requires
        crate::resolver::goes_on(v, Ok(after)),
        v.seen.no_duplicates(),
        v.waiting <= v.builder.worklist.len(),
        v.stuck is None ==> v.waiting == 0,
    ensures
        is_orderly(after),
        calls_left(after.stage) <= 3,
        after.seen.len() == v.seen.len() + 1 || (after.seen.len() == v.seen.len() && after.waiting
            == v.waiting && settled(after) == v.builder.nodes.dom().len() + 1),
{
    let b = v.builder;
    let fresh = b.worklist.len() - v.waiting;
    if crate::model::has_due_before(b, fresh) {
        let k = choose|k: int| #[trigger]
            crate::model::next_due(b, k) && crate::resolver::takes_up(
                ResolutionView { builder: crate::model::popped(b, k + 1), ..v },
                b.worklist[k],
                Ok(after),
            );
        let j = choose|j: int| 0 <= j < fresh && crate::model::is_due(b, #[trigger] b.worklist[j]);
        assert(k <= j);
        let name = b.worklist[k];
        let taken = ResolutionView { builder: crate::model::popped(b, k + 1), ..v };
        let marked = ResolutionView {
            seen: taken.seen.push(crate::model::course_of(taken.builder)),
            ..taken
        };
        assert(b.requirements.contains_key(name));
        if !taken.builder.nodes.contains_key(name) {
            assert(crate::resolver::calls_for(taken, name, Ok(after)));
        } else {
            assert(crate::resolver::calls_for(marked, name, Ok(after)));
            crate::lists::lemma_push_distinct(
                taken.seen,
                crate::model::course_of(taken.builder),
            );
        }
    }
}

/// The nodes after the walk of a manifest.
proof fn lemma_nodes_of_walk(
    b: BuilderView,
    name: Name,
    node: NodeView,
    base: Seq<Seq<char>>,
    manifest: crate::manifest::ManifestView,
    after: BuilderView,
)
    requires
        crate::model::is_walk_of(b, name, node, base, manifest, None, after),
        b.nodes.dom().finite(),
    ensures
        b.worklist.len() <= after.worklist.len(),
        after.nodes.dom().len() >= 1,
        !b.nodes.contains_key(name) ==> after.nodes.dom().len() == b.nodes.dom().len() + 1,
{
    let entered = crate::model::at_path(crate::model::with_node(b, name, node), base);
    crate::laws::lemma_edges_keep_the_rest(entered, Some(name), manifest.dependencies);
    crate::laws::lemma_edges_extend_worklist(entered, Some(name), manifest.dependencies);
    assert(after.nodes.dom() =~= b.nodes.dom().insert(name));
}

/// The counts after a walk.
proof fn lemma_counts_of_walk(
    v: ResolutionView,
    name: Name,
    node: NodeView,
    base: Seq<Seq<char>>,
    manifest: crate::manifest::ManifestView,
    pick: Option<crate::resolver::PickView>,
    after: ResolutionView,
)
    requires
        crate::resolver::walks(v, name, node, base, manifest, pick, Ok(after)),
        crate::resolver::package_of(v.stage) == Some(name),
        v.builder.nodes.dom().finite(),
        is_orderly(v),
    ensures
        is_orderly(after),
        calls_left(after.stage) <= 3,
        after.seen.len() == v.seen.len() + 1 || (after.seen.len() == v.seen.len() && settled(after)
            >= settled(v) + 1),
{
    let len = v.builder.worklist.len() as int;
    let on = |b: BuilderView|
        ResolutionView {
            builder: crate::model::behind(b, len - v.waiting, len),
            stage: StageView::Done,
            manifests: v.manifests.insert(name, manifest),
            picked: crate::resolver::with_pick(v.picked, name, pick),
            ..v
        };
    let (e, b) = choose|e: Option<ErrorView>, b: BuilderView| #[trigger]
        crate::model::is_walk_of(v.builder, name, node, base, manifest, e, b) && match e {
            None => crate::resolver::goes_on(on(b), Ok(after)),
            Some(e) => Ok::<ResolutionView, ErrorView>(after) == crate::resolver::failure(v, e),
        };
    lemma_nodes_of_walk(v.builder, name, node, base, manifest, b);
    crate::lists::lemma_behind(b.worklist, len - v.waiting, len);
    lemma_counts_going_on(on(b), after);
}

/// The counts after a choice among published versions.
proof fn lemma_counts_of_choice(
    v: ResolutionView,
    name: Name,
    registry: Seq<char>,
    repository: Seq<char>,
    versions: Seq<VersionView>,
    after: ResolutionView,
)
    requires
        crate::resolver::selects(v, name, registry, repository, versions, Ok(after)),
        v.stage == (StageView::Listing { name, registry, repository }),
        is_orderly(v),
    ensures
        is_orderly(after),
        calls_left(after.stage) <= 3,
        ({
            ||| after.seen.len() == v.seen.len() + 1
            ||| after.seen.len() == v.seen.len() && settled(after) >= settled(v) + 1
            ||| after.seen.len() == v.seen.len() && settled(after) == settled(v) && (after.waiting
                == v.waiting + 1 || after.waiting == v.waiting && calls_left(after.stage)
                < calls_left(v.stage))
        }),
{
    let b = crate::model::reconsidered(v.builder, name, versions);
    let reqs = crate::model::edge_reqs(b.requirements[name]);
    let now = ResolutionView { builder: b, stage: StageView::Done, ..v };
    assert(b.nodes == v.builder.nodes);
    if !crate::model::needs_visit(b, name) {
        lemma_counts_going_on(now, after);
    } else if !crate::pick::is_pick(versions, reqs, None) {
        let way = crate::resolver::making_way(now, name);
        assert(way.builder.nodes.contains_key(name) == v.builder.nodes.contains_key(name));
    } else {
        let put = crate::resolver::putting_off(
            now,
            name,
            crate::resolver::no_version(name, reqs, versions),
        );
        lemma_counts_going_on(put, after);
    }
}

/// Every answer leaves less to do, and an orderly resolution.
pub proof fn law_every_answer_leaves_less_to_do(
    v: ResolutionView,
    answer: AnswerView,
    after: ResolutionView,
    stock: Stock,
)
    requires
        stock.is_limited(),
        is_made_of(v, stock),
        is_made_of(after, stock),
        is_orderly(v),
        crate::resolver::is_led_by(v, answer, Ok(after)),
    ensures
        is_orderly(after),
        0 <= left_to_do(after, stock.names.len(), stock.states().len()) < left_to_do(
            v,
            stock.names.len(),
            stock.states().len(),
        ),
{
    lemma_made_of(v, stock);
    let n = stock.names.len() as int;
    let s = stock.states().len() as int;
    match (v.stage, answer) {
        (
            StageView::Reading { name, path },
            AnswerView::Manifest(manifest),
        ) => lemma_counts_of_walk(
            v,
            name,
            crate::model::local_node(name, path, manifest),
            path,
            manifest,
            None,
            after,
        ),
        (
            StageView::Listing { name, registry, repository },
            AnswerView::Versions(versions),
        ) => lemma_counts_of_choice(v, name, registry, repository, versions, after),
        (
            StageView::LookingUp { name, registry, repository, chosen, file, pick },
            AnswerView::Cached(Some(manifest)),
        ) => lemma_counts_of_walk(
            v,
            name,
            crate::model::remote_node(name, registry, repository, chosen, manifest),
            v.builder.base_path,
            manifest,
            Some(pick),
            after,
        ),
        (
            StageView::Downloading { name, registry, repository, chosen, pick },
            AnswerView::Manifest(manifest),
        ) => lemma_counts_of_walk(
            v,
            name,
            crate::model::remote_node(name, registry, repository, chosen, manifest),
            v.builder.base_path,
            manifest,
            Some(pick),
            after,
        ),
        _ => {},
    }
    lemma_made_of(after, stock);
    lemma_less(
        n + 1,
        s,
        v.seen.len() as int,
        settled(v) as int,
        v.waiting as int,
        calls_left(v.stage) as int,
        after.seen.len() as int,
        settled(after) as int,
        after.waiting as int,
        calls_left(after.stage) as int,
    );
}

/// The count goes down when a state is recorded, or else a package is settled, or else one is put
/// off, or else a call is made.
proof fn lemma_less(
    n: int,
    s: int,
    seen: int,
    settled: int,
    waiting: int,
    calls: int,
    more_seen: int,
    more_settled: int,
    more_waiting: int,
    fewer_calls: int,
)
    requires
        0 <= seen <= s,
        0 <= more_seen <= s,
        0 <= settled <= n,
        0 <= more_settled <= n,
        0 <= waiting <= n,
        0 <= more_waiting <= n,
        0 <= calls <= 3,
        0 <= fewer_calls <= 3,
        ({
            ||| more_seen == seen + 1
            ||| more_seen == seen && more_settled >= settled + 1
            ||| more_seen == seen && more_settled == settled && more_waiting > waiting
            ||| more_seen == seen && more_settled == settled && more_waiting == waiting
                && fewer_calls < calls
        }),
    ensures
        0 <= ((s - more_seen) * (n + 2) + (n - more_settled)) * (4 * (n + 2)) + (n - more_waiting)
            * 4 + fewer_calls < ((s - seen) * (n + 2) + (n - settled)) * (4 * (n + 2)) + (n
            - waiting) * 4 + calls,
{
    let high = (s - seen) * (n + 2) + (n - settled);
    let less = (s - more_seen) * (n + 2) + (n - more_settled);
    let unit = 4 * (n + 2);
    assert((s - more_seen) * (n + 2) >= 0) by (nonlinear_arith)
        requires
            more_seen <= s,
            n >= 0,
    ;
    assert(less * unit >= 0) by (nonlinear_arith)
        requires
            less >= 0,
            unit >= 0,
    ;
    if more_seen == seen + 1 {
        assert((s - seen) * (n + 2) == (s - more_seen) * (n + 2) + (n + 2)) by (nonlinear_arith)
            requires
                more_seen == seen + 1,
        ;
    }
    if less < high {
        assert(high * unit >= less * unit + unit) by (nonlinear_arith)
            requires
                less + 1 <= high,
                unit >= 0,
        ;
    }
}

/// Whether a resolution is one that begins: nothing was put off before it, and no state recorded.
pub open spec fn is_beginning(v: ResolutionView) -> bool {
    exists|start: ResolutionView| #[trigger]
        crate::resolver::goes_on(start, Ok(v)) && start.waiting == 0 && start.stuck is None
            && start.seen.len() == 0
}

/// Whether resolutions follow each other from the beginning, each led to from the one before by an
/// answer, and all made of one stock.
pub open spec fn is_course(resolutions: Seq<ResolutionView>, stock: Stock) -> bool {
    &&& resolutions.len() > 0
    &&& is_beginning(resolutions[0])
    &&& forall|i: int| 0 <= i < resolutions.len() ==> is_made_of(#[trigger] resolutions[i], stock)
    &&& forall|i: int|
        0 <= i < resolutions.len() - 1 ==> can_follow(
            #[trigger] resolutions[i],
            resolutions[i + 1],
        )
}

/// Every resolution ends, also where packages depend on each other in a circle: where packages,
/// versions, requirements and sources are limited in number, so are the answers that it takes.
pub proof fn law_every_resolution_ends(resolutions: Seq<ResolutionView>, stock: Stock)
    requires
        stock.is_limited(),
        is_course(resolutions, stock),
    ensures
        resolutions.len() - 1 <= left_to_do(
            resolutions[0],
            stock.names.len(),
            stock.states().len(),
        ),
{
    lemma_course_descends(resolutions, stock, resolutions.len() - 1);
}

proof fn lemma_course_descends(resolutions: Seq<ResolutionView>, stock: Stock, i: int)
    requires
        stock.is_limited(),
        0 <= i < resolutions.len(),
        is_course(resolutions, stock),
    ensures
        is_orderly(resolutions[i]),
        0 <= left_to_do(resolutions[i], stock.names.len(), stock.states().len()),
        i + left_to_do(resolutions[i], stock.names.len(), stock.states().len()) <= left_to_do(
            resolutions[0],
            stock.names.len(),
            stock.states().len(),
        ),
    decreases i,
{
    assert(is_made_of(resolutions[i], stock));
    if i > 0 {
        lemma_course_descends(resolutions, stock, i - 1);
        let v = resolutions[i - 1];
        let after = resolutions[i];
        assert(is_made_of(resolutions[i - 1], stock));
        assert(can_follow(resolutions[i - 1], resolutions[i - 1 + 1]));
        let answer = choose|answer: AnswerView| #[trigger]
            crate::resolver::is_led_by(v, answer, Ok(after));
        law_every_answer_leaves_less_to_do(v, answer, after, stock);
    } else {
        let v = resolutions[0];
        let start = choose|start: ResolutionView| #[trigger]
            crate::resolver::goes_on(start, Ok(v)) && start.waiting == 0 && start.stuck is None
                && start.seen.len() == 0;
        lemma_counts_going_on(start, v);
        lemma_made_of(v, stock);
        let n = stock.names.len() as int;
        let s = stock.states().len() as int;
        assert((s - v.seen.len()) * (n + 3) >= 0) by (nonlinear_arith)
            requires
                v.seen.len() <= s,
                n >= 0,
        ;
        let high = (s - v.seen.len()) * (n + 3) + (n + 1 - settled(v));
        assert(high * (4 * (n + 3)) >= 0) by (nonlinear_arith)
            requires
                high >= 0,
                n >= 0,
        ;
    }
}

} // verus!
