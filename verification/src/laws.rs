//! What resolution keeps and brings about.
use crate::graph::{NodeView, SourceView};
use crate::manifest::DependencyView;
use crate::model::{BuilderView, EdgeView, PlanView};
use crate::package::Name;
use crate::version::VersionView;
use vstd::prelude::*;

verus! {

/// An edge that does not conflict keeps a state consistent.
pub proof fn law_edge_keeps_consistency(
    b: BuilderView,
    parent: Option<Name>,
    dependency: DependencyView,
)
    requires
        crate::model::is_consistent(b),
        !crate::model::conflicts(b, dependency),
    ensures
        crate::model::is_consistent(crate::model::with_edge(b, parent, dependency)),
{
    let name = dependency.package;
    let mid = crate::model::with_requirement(b, parent, dependency);
    let after = crate::model::with_edge(b, parent, dependency);
    assert(b.sources.contains_key(name) == b.requirements.contains_key(name)) by {
        assert(b.sources.dom().contains(name) == b.requirements.dom().contains(name));
    }
    assert(after.sources.dom() =~= after.requirements.dom());
    if crate::model::needs_visit(mid, name) && !mid.worklist.contains(name) {
        crate::lists::lemma_push_distinct(mid.worklist, name);
    }
}

/// The node of a required package keeps a state consistent, whatever the directory.
pub proof fn law_node_keeps_consistency(b: BuilderView, name: Name, node: NodeView)
    requires
        crate::model::is_consistent(b),
        b.requirements.contains_key(name),
        crate::model::node_is_pinned(name, node),
    ensures
        crate::model::is_consistent(crate::model::with_node(b, name, node)),
{
}

/// Packages can be taken off the worklist of a consistent state.
pub proof fn law_pops_keep_consistency(b: BuilderView, k: int)
    requires
        crate::model::is_consistent(b),
        0 <= k <= b.worklist.len(),
    ensures
        crate::model::is_consistent(crate::model::popped(b, k)),
{
    let rest = b.worklist.skip(k);
    assert forall|i: int, j: int|
        0 <= i < rest.len() && 0 <= j < rest.len() && i != j implies rest[i] != rest[j] by {
        assert(b.worklist[i + k] != b.worklist[j + k]);
    }
}

/// Edges change the requirements, the sources and the worklist alone.
pub proof fn lemma_edges_keep_the_rest(
    b: BuilderView,
    parent: Option<Name>,
    dependencies: Seq<DependencyView>,
)
    ensures
        ({
            let after = crate::model::with_edges(b, parent, dependencies);
            after == (BuilderView {
                requirements: after.requirements,
                sources: after.sources,
                worklist: after.worklist,
                ..b
            })
        }),
    decreases dependencies.len(),
{
    if dependencies.len() > 0 {
        lemma_edges_keep_the_rest(b, parent, dependencies.drop_last());
    }
}

/// Edges put packages at the end of the worklist only.
pub proof fn lemma_edges_extend_worklist(
    b: BuilderView,
    parent: Option<Name>,
    dependencies: Seq<DependencyView>,
)
    ensures
        ({
            let after = crate::model::with_edges(b, parent, dependencies);
            &&& b.worklist.len() <= after.worklist.len()
            &&& after.worklist.take(b.worklist.len() as int) == b.worklist
        }),
    decreases dependencies.len(),
{
    let after = crate::model::with_edges(b, parent, dependencies);
    if dependencies.len() > 0 {
        lemma_edges_extend_worklist(b, parent, dependencies.drop_last());
        let mid = crate::model::with_edges(b, parent, dependencies.drop_last());
        assert(after.worklist.take(b.worklist.len() as int) =~= mid.worklist.take(
            b.worklist.len() as int,
        ));
    } else {
        assert(after.worklist.take(b.worklist.len() as int) =~= b.worklist);
    }
}

/// Edges that do not conflict keep a state consistent.
pub proof fn law_edges_keep_consistency(
    b: BuilderView,
    parent: Option<Name>,
    dependencies: Seq<DependencyView>,
)
    requires
        crate::model::is_consistent(b),
        crate::model::no_conflict(b, parent, dependencies),
    ensures
        crate::model::is_consistent(crate::model::with_edges(b, parent, dependencies)),
    decreases dependencies.len(),
{
    if dependencies.len() > 0 {
        lemma_conflicts_of_prefix(b, parent, dependencies);
        let rest = dependencies.drop_last();
        law_edges_keep_consistency(b, parent, rest);
        law_edge_keeps_consistency(
            crate::model::with_edges(b, parent, rest),
            parent,
            dependencies.last(),
        );
    }
}

/// Where no dependency conflicts, none does without the last, and the last does not after them.
pub proof fn lemma_conflicts_of_prefix(
    b: BuilderView,
    parent: Option<Name>,
    dependencies: Seq<DependencyView>,
)
    requires
        crate::model::no_conflict(b, parent, dependencies),
        dependencies.len() > 0,
    ensures
        crate::model::no_conflict(b, parent, dependencies.drop_last()),
        !crate::model::conflicts(
            crate::model::with_edges(b, parent, dependencies.drop_last()),
            dependencies.last(),
        ),
{
    let rest = dependencies.drop_last();
    assert forall|j: int| 0 <= j < rest.len() implies !crate::model::conflicts(
        crate::model::with_edges(b, parent, #[trigger] rest.take(j)),
        rest[j],
    ) by {
        assert(rest.take(j) =~= dependencies.take(j));
        assert(rest[j] == dependencies[j]);
    }
    assert(dependencies.take(dependencies.len() - 1) =~= rest);
}

/// The beginning of a chain is a chain.
pub proof fn lemma_chain_prefix(b: BuilderView, without: Option<Name>, path: Seq<Name>, i: int)
    requires
        crate::model::is_chain(b, without, path),
        0 <= i < path.len(),
    ensures
        crate::model::is_chain(b, without, path.take(i + 1)),
        crate::model::is_reached(b, without, path[i]),
{
    let part = path.take(i + 1);
    assert forall|j: int| 0 <= j < part.len() - 1 implies without != Some(#[trigger] part[j])
        && crate::model::leads(b, part[j], part[j + 1]) by {
        assert(crate::model::leads(b, path[j], path[j + 1]));
    }
    assert(part.last() == path[i]);
}

/// What is reached is not dropped, and neither is the package whose contributions are retracted.
proof fn lemma_chain_stays(b: BuilderView, parent: Name, path: Seq<Name>, i: int)
    requires
        crate::model::is_chain(b, Some(parent), path),
        0 <= i < path.len(),
    ensures
        b.requirements.contains_key(path[i]),
        !crate::model::is_dropped(b, parent, path[i]),
{
    lemma_chain_prefix(b, Some(parent), path, i);
    if i > 0 {
        assert(crate::model::leads(b, path[i - 1], path[i - 1 + 1]));
    }
}

/// An edge that is not retracted stays.
pub proof fn lemma_edge_stays(b: BuilderView, parent: Name, name: Name, k: int)
    requires
        b.requirements.contains_key(name),
        !crate::model::is_dropped(b, parent, name),
        0 <= k < b.requirements[name].len(),
        name == parent || !crate::model::is_retracted(b, parent, b.requirements[name][k]),
    ensures
        crate::model::retracted(b, parent).requirements.contains_key(name),
        crate::model::retracted(b, parent).requirements[name].contains(b.requirements[name][k]),
{
    let keep = |e: EdgeView| !crate::model::is_retracted(b, parent, e);
    crate::lists::lemma_filter_contents(b.requirements[name], keep);
    let after = crate::model::retracted(b, parent).requirements[name];
    if name == parent {
        assert(after[k] == b.requirements[name][k]);
    } else {
        assert(keep(b.requirements[name][k]));
    }
}

/// A chain that does not lead on from the package whose contributions are retracted stays.
pub proof fn lemma_chain_outlasts(b: BuilderView, parent: Name, path: Seq<Name>)
    requires
        crate::model::is_chain(b, Some(parent), path),
    ensures
        crate::model::is_chain(crate::model::retracted(b, parent), Some(parent), path),
        crate::model::is_chain(crate::model::retracted(b, parent), None, path),
{
    let after = crate::model::retracted(b, parent);
    lemma_chain_stays(b, parent, path, 0);
    let first = b.requirements[path[0]];
    let k = choose|k: int| 0 <= k < first.len() && (#[trigger] first[k]).from == None::<Name>;
    lemma_edge_stays(b, parent, path[0], k);
    let j = after.requirements[path[0]].index_of(first[k]);
    assert(after.requirements[path[0]][j].from is None);
    assert forall|i: int| 0 <= i < path.len() - 1 implies #[trigger] path[i] != parent
        && crate::model::leads(after, path[i], path[i + 1]) by {
        assert(Some(parent) != Some(path[i]));
        assert(crate::model::leads(b, path[i], path[i + 1]));
        lemma_chain_stays(b, parent, path, i);
        lemma_chain_stays(b, parent, path, i + 1);
        let edges = b.requirements[path[i + 1]];
        let l = choose|l: int| 0 <= l < edges.len() && (#[trigger] edges[l]).from == Some(path[i]);
        lemma_edge_stays(b, parent, path[i + 1], l);
        let m = after.requirements[path[i + 1]].index_of(edges[l]);
        assert(after.requirements[path[i + 1]][m].from == Some(path[i]));
    }
}

/// What stays behind a retraction: the package whose contributions are retracted, with every
/// requirement on it, and every other that the root manifest still leads to.
pub proof fn law_retraction_keeps_consistency(b: BuilderView, parent: Name)
    requires
        crate::model::is_consistent(b),
    ensures
        crate::model::is_consistent(crate::model::retracted(b, parent)),
        b.requirements.contains_key(parent) ==> crate::model::retracted(
            b,
            parent,
        ).requirements.contains_key(parent) && crate::model::retracted(
            b,
            parent,
        ).requirements[parent] == b.requirements[parent],
{
    let after = crate::model::retracted(b, parent);
    assert(after.sources.dom() =~= after.requirements.dom()) by {
        assert forall|n: Name| after.sources.dom().contains(n)
            == #[trigger] after.requirements.dom().contains(n) by {
            assert(b.sources.dom().contains(n) == b.requirements.dom().contains(n));
        }
    }
    assert forall|n: Name| #[trigger] after.requirements.contains_key(
        n,
    ) implies after.requirements[n].len() > 0 by {
        if n != parent {
            assert(crate::model::is_reached(b, Some(parent), n));
            let path = choose|path: Seq<Name>| #[trigger]
                crate::model::is_chain(b, Some(parent), path) && path.last() == n;
            lemma_chain_outlasts(b, parent, path);
            if path.len() == 1 {
                assert(crate::model::is_root(after, path[0]));
            } else {
                let i = path.len() - 2;
                assert(crate::model::leads(after, path[i], path[i + 1]));
            }
        }
    }
}

/// Where the root manifest leads to every package that is required, it does so after a retraction.
pub proof fn law_retraction_keeps_reach(b: BuilderView, parent: Name)
    requires
        forall|n: Name| #[trigger]
            b.requirements.contains_key(n) ==> crate::model::is_reached(b, None, n),
    ensures
        forall|n: Name| #[trigger]
            crate::model::retracted(b, parent).requirements.contains_key(n)
                ==> crate::model::is_reached(crate::model::retracted(b, parent), None, n),
{
    let after = crate::model::retracted(b, parent);
    assert forall|n: Name| #[trigger] after.requirements.contains_key(
        n,
    ) implies crate::model::is_reached(after, None, n) by {
        assert(b.requirements.contains_key(n));
        if n == parent {
            lemma_reached_directly(b, parent);
        }
        let path = choose|path: Seq<Name>| #[trigger]
            crate::model::is_chain(b, Some(parent), path) && path.last() == n;
        lemma_chain_outlasts(b, parent, path);
    }
}

/// A package that is reached is reached by a chain that does not lead on from it.
proof fn lemma_reached_directly(b: BuilderView, name: Name)
    requires
        crate::model::is_reached(b, None, name),
    ensures
        crate::model::is_reached(b, Some(name), name),
{
    let path = choose|path: Seq<Name>| #[trigger]
        crate::model::is_chain(b, None, path) && path.last() == name;
    lemma_first_arrival(b, path, name, 0);
}

proof fn lemma_first_arrival(b: BuilderView, path: Seq<Name>, name: Name, i: int)
    requires
        crate::model::is_chain(b, None, path),
        path.last() == name,
        0 <= i < path.len(),
        forall|j: int| 0 <= j < i ==> #[trigger] path[j] != name,
    ensures
        crate::model::is_reached(b, Some(name), name),
    decreases path.len() - i,
{
    if path[i] == name {
        let part = path.take(i + 1);
        assert forall|j: int| 0 <= j < part.len() - 1 implies Some(name) != Some(#[trigger] part[j])
            && crate::model::leads(b, part[j], part[j + 1]) by {
            assert(path[j] != name);
            assert(crate::model::leads(b, path[j], path[j + 1]));
        }
        assert(crate::model::is_chain(b, Some(name), part));
        assert(part.last() == name);
    } else {
        lemma_first_arrival(b, path, name, i + 1);
    }
}

/// A second retraction of the same contributions changes nothing.
pub proof fn law_second_retraction_changes_nothing(b: BuilderView, parent: Name)
    ensures
        crate::model::retracted(crate::model::retracted(b, parent), parent)
            == crate::model::retracted(b, parent),
{
    let once = crate::model::retracted(b, parent);
    let twice = crate::model::retracted(once, parent);
    assert forall|n: Name| !(#[trigger] crate::model::is_dropped(once, parent, n)) by {
        if once.requirements.contains_key(n) && n != parent {
            let path = choose|path: Seq<Name>| #[trigger]
                crate::model::is_chain(b, Some(parent), path) && path.last() == n;
            lemma_chain_outlasts(b, parent, path);
        }
    }
    assert(twice.nodes =~= once.nodes);
    assert(twice.sources =~= once.sources);
    assert forall|n: Name| #[trigger] once.requirements.contains_key(
        n,
    ) implies crate::model::kept_edges(once, parent, n) == once.requirements[n] by {
        if n != parent {
            let edges = once.requirements[n];
            assert forall|k: int| 0 <= k < edges.len() implies !crate::model::is_retracted(
                once,
                parent,
                #[trigger] edges[k],
            ) by {
                law_retraction_leaves_no_trace(b, parent, n, k);
            }
            crate::lists::lemma_filter_all(
                edges,
                |e: EdgeView| !crate::model::is_retracted(once, parent, e),
            );
        }
    }
    assert(twice.requirements =~= once.requirements);
}

/// Where the root manifest leads to every package that is required, the retraction of a package
/// that requires none changes nothing, and makes none due.
pub proof fn law_retraction_without_edges_changes_nothing(b: BuilderView, parent: Name)
    requires
        crate::model::is_consistent(b),
        forall|n: Name| #[trigger]
            b.requirements.contains_key(n) ==> crate::model::is_reached(b, None, n),
        forall|n: Name| #[trigger]
            b.requirements.contains_key(n) ==> !crate::model::has_edge_from(
                b.requirements[n],
                Some(parent),
            ),
    ensures
        crate::model::retracted(b, parent) == b,
        forall|n: Name| !crate::model::is_unsettled(b, parent, n),
{
    let after = crate::model::retracted(b, parent);
    assert forall|n: Name| !crate::model::is_dropped(b, parent, n) by {
        if b.requirements.contains_key(n) {
            let path = choose|path: Seq<Name>| #[trigger]
                crate::model::is_chain(b, None, path) && path.last() == n;
            assert forall|i: int| 0 <= i < path.len() - 1 implies Some(parent) != Some(
                #[trigger] path[i],
            ) && crate::model::leads(b, path[i], path[i + 1]) by {
                assert(crate::model::leads(b, path[i], path[i + 1]));
                assert(b.requirements.contains_key(path[i + 1]));
            }
            assert(crate::model::is_chain(b, Some(parent), path));
        }
    }
    assert forall|n: Name| b.requirements.contains_key(n) implies #[trigger] crate::model::kept_edges(
    b, parent, n) == b.requirements[n] by {
        let edges = b.requirements[n];
        let keep = |e: crate::model::EdgeView| !crate::model::is_retracted(b, parent, e);
        assert forall|k: int| 0 <= k < edges.len() implies keep(#[trigger] edges[k]) by {
            if edges[k].from == Some(parent) {
                assert(crate::model::has_edge_from(edges, Some(parent)));
            }
        }
        crate::lists::lemma_filter_all(edges, keep);
    }
    assert(after.requirements =~= b.requirements);
    assert(after.nodes =~= b.nodes);
    assert(after.sources =~= b.sources);
}

/// A retraction goes by nodes, requirements and sources alone.
pub proof fn lemma_same_retraction(b: BuilderView, after: BuilderView, parent: Name)
    requires
        after == (BuilderView { worklist: after.worklist, ..b }),
    ensures
        crate::model::retracted(after, parent) == (BuilderView {
            worklist: after.worklist,
            ..crate::model::retracted(b, parent)
        }),
{
    assert forall|path: Seq<Name>|
        #![trigger crate::model::is_chain(b, Some(parent), path)]
        #![trigger crate::model::is_chain(after, Some(parent), path)]
        crate::model::is_chain(after, Some(parent), path) == crate::model::is_chain(
            b,
            Some(parent),
            path,
        ) by {
        assert forall|x: Name, y: Name| #[trigger]
            crate::model::leads(after, x, y) == crate::model::leads(b, x, y) by {}
        if crate::model::is_chain(b, Some(parent), path) {
            assert forall|i: int| 0 <= i < path.len() - 1 implies Some(parent) != Some(
                #[trigger] path[i],
            ) && crate::model::leads(after, path[i], path[i + 1]) by {
                assert(crate::model::leads(b, path[i], path[i + 1]));
            }
        }
        if crate::model::is_chain(after, Some(parent), path) {
            assert forall|i: int| 0 <= i < path.len() - 1 implies Some(parent) != Some(
                #[trigger] path[i],
            ) && crate::model::leads(b, path[i], path[i + 1]) by {
                assert(crate::model::leads(after, path[i], path[i + 1]));
            }
        }
    }
    assert forall|n: Name| #[trigger]
        crate::model::is_dropped(after, parent, n) == crate::model::is_dropped(b, parent, n) by {}
    assert forall|n: Name| #[trigger]
        crate::model::kept_edges(after, parent, n) == crate::model::kept_edges(b, parent, n) by {
        assert((|e: crate::model::EdgeView| !crate::model::is_retracted(after, parent, e)) =~= (|
            e: crate::model::EdgeView,
        | !crate::model::is_retracted(b, parent, e)));
    }
    let one = crate::model::retracted(after, parent);
    let other = crate::model::retracted(b, parent);
    assert(one.nodes =~= other.nodes);
    assert(one.sources =~= other.sources);
    assert(one.requirements =~= other.requirements);
}

/// A retraction leaves the picks of the packages that stay as they are: it never raises one.
pub proof fn law_retraction_keeps_picks(b: BuilderView, parent: Name, name: Name)
    requires
        crate::model::retracted(b, parent).nodes.contains_key(name),
    ensures
        b.nodes.contains_key(name),
        crate::model::retracted(b, parent).nodes[name] == b.nodes[name],
{
}

/// What a retraction leaves of the requirements on another package was there before, and comes
/// neither from the package whose contributions are retracted nor from one that is dropped.
pub proof fn law_retraction_leaves_no_trace(b: BuilderView, parent: Name, name: Name, k: int)
    requires
        name != parent,
        crate::model::retracted(b, parent).requirements.contains_key(name),
        0 <= k < crate::model::retracted(b, parent).requirements[name].len(),
    ensures
        ({
            let edge = crate::model::retracted(b, parent).requirements[name][k];
            &&& b.requirements[name].contains(edge)
            &&& edge.from != Some(parent)
            &&& edge.from matches Some(p) ==> !crate::model::is_dropped(b, parent, p)
        }),
{
    let keep = |e: EdgeView| !crate::model::is_retracted(b, parent, e);
    crate::lists::lemma_filter_contents(b.requirements[name], keep);
    let edge = crate::model::retracted(b, parent).requirements[name][k];
    assert(edge == b.requirements[name].filter(keep)[k]);
    assert(keep(edge));
}

/// What needs a visit after a retraction needed one before it.
pub proof fn law_retraction_brings_no_visit(b: BuilderView, parent: Name, name: Name)
    requires
        crate::model::retracted(b, parent).requirements.contains_key(name),
        crate::model::needs_visit(crate::model::retracted(b, parent), name),
    ensures
        crate::model::is_due(b, name),
{
    let after = crate::model::retracted(b, parent);
    if b.nodes.contains_key(name) && b.nodes[name].resolved_version is Some && name != parent {
        let v = b.nodes[name].resolved_version->0;
        let all = crate::model::edge_reqs(b.requirements[name]);
        let few = crate::model::edge_reqs(after.requirements[name]);
        if crate::pick::satisfies_all(all, v) {
            assert forall|i: int| 0 <= i < few.len() implies crate::version::satisfies(
                #[trigger] few[i],
                v,
            ) by {
                law_retraction_leaves_no_trace(b, parent, name, i);
                let k = b.requirements[name].index_of(after.requirements[name][i]);
                assert(all[k] == few[i]);
            }
        }
    }
}

/// A package that a retraction unsettles was due before it.
pub proof fn law_unsettled_was_due(b: BuilderView, parent: Name, name: Name)
    requires
        crate::model::is_unsettled(b, parent, name),
    ensures
        crate::model::is_due(b, name),
        name != parent,
{
    law_retraction_brings_no_visit(b, parent, name);
}

/// A retraction brings about no visit that is not scheduled.
pub proof fn law_retraction_keeps_schedule(b: BuilderView, parent: Name)
    requires
        crate::model::is_scheduled(b, Some(parent)),
    ensures
        crate::model::is_scheduled(crate::model::retracted(b, parent), Some(parent)),
{
    let after = crate::model::retracted(b, parent);
    assert forall|n: Name| #[trigger]
        after.requirements.contains_key(n) && n != parent && crate::model::needs_visit(
            after,
            n,
        ) implies after.worklist.contains(n) by {
        law_retraction_brings_no_visit(b, parent, n);
        assert(b.requirements.contains_key(n));
    }
}

/// Sources of one kind go together, in whatever order they are seen.
pub proof fn law_source_kinds_are_symmetric(a: SourceView, b: SourceView)
    ensures
        crate::model::same_kind(a, b) == crate::model::same_kind(b, a),
        crate::model::same_kind(a, b) <==> (a is Local && b is Local) || (a is Remote && b is Remote),
{
}

/// Edges take no requirement back: those on a package stay, in their order, before any new ones.
pub proof fn law_edges_only_extend(
    b: BuilderView,
    parent: Option<Name>,
    dependencies: Seq<DependencyView>,
    name: Name,
)
    requires
        b.requirements.contains_key(name),
    ensures
        crate::model::with_edges(b, parent, dependencies).requirements.contains_key(name),
        b.requirements[name].is_prefix_of(
            crate::model::with_edges(b, parent, dependencies).requirements[name],
        ),
    decreases dependencies.len(),
{
    let edges = b.requirements[name];
    if dependencies.len() == 0 {
        assert(edges.subrange(0, edges.len() as int) =~= edges);
    } else {
        let rest = dependencies.drop_last();
        law_edges_only_extend(b, parent, rest, name);
        let mid = crate::model::with_edges(b, parent, rest).requirements[name];
        let after = crate::model::with_edges(b, parent, dependencies).requirements[name];
        assert(after.subrange(0, edges.len() as int) =~= mid.subrange(0, edges.len() as int));
    }
}

/// A pick that is the highest stays the highest while requirements are added that it meets.
pub proof fn law_pick_stays_highest(
    b: BuilderView,
    parent: Option<Name>,
    dependencies: Seq<DependencyView>,
    name: Name,
    versions: Seq<VersionView>,
)
    requires
        b.requirements.contains_key(name),
        b.nodes.contains_key(name),
        b.nodes[name].resolved_version is Some,
        crate::pick::is_pick(
            versions,
            crate::model::edge_reqs(b.requirements[name]),
            b.nodes[name].resolved_version,
        ),
        !crate::model::needs_visit(crate::model::with_edges(b, parent, dependencies), name),
    ensures
        ({
            let after = crate::model::with_edges(b, parent, dependencies);
            &&& after.nodes[name] == b.nodes[name]
            &&& crate::pick::is_pick(
                versions,
                crate::model::edge_reqs(after.requirements[name]),
                after.nodes[name].resolved_version,
            )
        }),
{
    let after = crate::model::with_edges(b, parent, dependencies);
    lemma_edges_keep_the_rest(b, parent, dependencies);
    law_edges_only_extend(b, parent, dependencies, name);
    let few = crate::model::edge_reqs(b.requirements[name]);
    let all = crate::model::edge_reqs(after.requirements[name]);
    assert forall|r: Seq<char>| #[trigger] few.to_set().contains(r) implies all.to_set().contains(
        r,
    ) by {
        let i = few.index_of(r);
        assert(b.requirements[name][i] == after.requirements[name].subrange(
            0,
            b.requirements[name].len() as int,
        )[i]);
        assert(all[i] == r);
    }
    crate::pick::law_pick_stands_while_it_fits(
        versions,
        few,
        all,
        b.nodes[name].resolved_version->0,
    );
}

/// A further edge into a resolved package schedules no work, if the package is local or its version
/// is one that the edge admits.
pub proof fn law_back_edge_schedules_nothing(
    b: BuilderView,
    parent: Option<Name>,
    dependency: DependencyView,
)
    requires
        b.nodes.contains_key(dependency.package),
        !crate::model::needs_visit(b, dependency.package),
        b.nodes[dependency.package].resolved_version matches Some(v) ==> crate::version::satisfies(
            crate::model::requirement_of(dependency),
            v,
        ),
    ensures
        crate::model::with_edge(b, parent, dependency).worklist == b.worklist,
        !crate::model::needs_visit(
            crate::model::with_edge(b, parent, dependency),
            dependency.package,
        ),
{
    let name = dependency.package;
    let mid = crate::model::with_requirement(b, parent, dependency);
    if b.nodes[name].resolved_version is Some {
        let v = b.nodes[name].resolved_version->0;
        let before = crate::model::edge_reqs(b.requirements[name]);
        let after = crate::model::edge_reqs(mid.requirements[name]);
        assert forall|i: int| 0 <= i < after.len() implies crate::version::satisfies(
            #[trigger] after[i],
            v,
        ) by {
            if i < before.len() {
                assert(after[i] == before[i]);
            }
        }
    }
}

/// A pin that can be used is used, whatever the registry publishes.
pub proof fn law_usable_pin_is_fetched(
    b: BuilderView,
    name: Name,
    registry: Seq<char>,
    repository: Seq<char>,
    i: int,
    plan: PlanView,
)
    requires
        crate::model::is_usable_pin(b, name, registry, i),
    ensures
        crate::model::is_remote_plan(b, name, registry, repository, plan) <==> plan == (
        PlanView::Fetch {
            registry,
            repository,
            version: b.lockfile->0[i].version,
            file: b.lockfile->0[i].file,
        }),
{
    let pins = b.lockfile->0;
    let reqs = crate::model::edge_reqs(crate::model::edges_of(b, name));
    if crate::model::is_remote_plan(b, name, registry, repository, plan) && plan is Fetch {
        let j = choose|j: int| #[trigger]
            crate::model::is_usable_pin(b, name, registry, j) && plan->version == pins[j].version
                && plan->file == pins[j].file;
        crate::lockfile::law_pin_is_unique(pins, name, reqs, i, j);
    }
}

/// A package calls for one thing.
pub proof fn law_plan_is_unique(b: BuilderView, name: Name, first: PlanView, second: PlanView)
    requires
        crate::model::is_plan(b, name, first),
        crate::model::is_plan(b, name, second),
    ensures
        first == second,
{
    match b.sources[name] {
        SourceView::Local { path } => {},
        SourceView::Remote { registry, repository } => {
            if exists|i: int| crate::model::is_usable_pin(b, name, registry, i) {
                let i = choose|i: int| crate::model::is_usable_pin(b, name, registry, i);
                law_usable_pin_is_fetched(b, name, registry, repository, i, first);
                law_usable_pin_is_fetched(b, name, registry, repository, i, second);
            }
        },
    }
}

} // verus!
