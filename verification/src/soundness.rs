//! Why the graph of a complete resolution meets every requirement.
use crate::graph::{NodeView, SourceView};
use crate::lockfile::LockedView;
use crate::manifest::{DependencyView, ManifestView};
use crate::model::{BuilderView, EdgeView};
use crate::package::{Name, NetworkMode, PackageType};
use vstd::prelude::*;

verus! {

/// Whether a dependency of `from` is recorded, with a source of its kind.
pub open spec fn has_edge(b: BuilderView, from: Option<Name>, d: DependencyView) -> bool {
    &&& b.requirements.contains_key(d.package)
    &&& b.requirements[d.package].contains(
        EdgeView { from, req: crate::model::requirement_of(d) },
    )
    &&& b.sources.contains_key(d.package)
    &&& b.sources[d.package] is Local == d.manifest is Local
}

/// Whether every dependency of `from` is recorded.
pub open spec fn has_edges(
    b: BuilderView,
    from: Option<Name>,
    dependencies: Seq<DependencyView>,
) -> bool {
    forall|i: int| 0 <= i < dependencies.len() ==> has_edge(b, from, #[trigger] dependencies[i])
}

/// Whether a node is what a package was resolved to: what its manifest says is recorded.
pub open spec fn is_walked(b: BuilderView, name: Name, manifest: ManifestView) -> bool {
    &&& b.nodes[name].source == b.sources[name]
    &&& b.nodes[name].dependencies == manifest.dependency_names()
    &&& b.nodes[name].package_type == manifest.package_type
    &&& has_edges(b, Some(name), manifest.dependencies)
}

/// What holds of a resolution before and after every step, where `root` are the dependencies of the
/// root manifest and `manifests` the manifests of the packages as they were last resolved.
pub open spec fn is_justified(
    b: BuilderView,
    root: Seq<DependencyView>,
    manifests: Map<Name, ManifestView>,
) -> bool {
    &&& crate::model::is_consistent(b)
    &&& crate::model::is_scheduled(b, None)
    &&& has_edges(b, None, root)
    &&& forall|n: Name| #[trigger]
        b.nodes.contains_key(n) ==> manifests.contains_key(n) && is_walked(b, n, manifests[n])
    &&& is_reachable(b, root)
}

/// Whether the root manifest, whose dependencies are `root`, leads to every package that is
/// required.
#[verifier::opaque]
pub open spec fn is_reachable(b: BuilderView, root: Seq<DependencyView>) -> bool {
    &&& forall|n: Name| #[trigger]
        b.requirements.contains_key(n) ==> crate::model::is_reached(b, None, n)
    &&& forall|n: Name| #[trigger]
        crate::model::is_root(b, n) ==> crate::model::names_of(root).contains(n)
}

/// Whether `node` is a node that a package may be resolved to, given its manifest: one of a version
/// that every requirement admits, if the package is remote.
pub open spec fn node_fits(
    b: BuilderView,
    name: Name,
    node: NodeView,
    manifest: ManifestView,
) -> bool {
    match b.sources[name] {
        SourceView::Local { path } => node == crate::model::local_node(name, path, manifest),
        SourceView::Remote { registry, repository } => node.resolved_version matches Some(v)
            && crate::pick::satisfies_all(
            crate::model::edge_reqs(crate::model::edges_of(b, name)),
            v,
        ) && node == crate::model::remote_node(name, registry, repository, v, manifest),
    }
}

/// The directory that the local paths in the manifest of a package are relative to.
pub open spec fn base_of(b: BuilderView, node: NodeView) -> Seq<Seq<char>> {
    match node.source {
        SourceView::Local { path } => path,
        SourceView::Remote { registry, repository } => b.base_path,
    }
}

/// Whether the package at `k` in the worklist is the next to be resolved, and to `node`.
pub open spec fn is_step(b: BuilderView, k: int, node: NodeView, manifest: ManifestView) -> bool {
    crate::model::next_due(b, k) && node_fits(b, b.worklist[k], node, manifest)
}

/// The state in which the package at `k` in the worklist has its node, and no edges yet.
pub open spec fn entered(b: BuilderView, k: int, node: NodeView) -> BuilderView {
    let name = b.worklist[k];
    crate::model::at_path(
        crate::model::with_node(
            crate::model::made_way(crate::model::popped(b, k + 1), name),
            name,
            node,
        ),
        base_of(b, node),
    )
}

/// The state in which the package at `k` in the worklist is resolved to `node`.
pub open spec fn stepped(
    b: BuilderView,
    k: int,
    node: NodeView,
    manifest: ManifestView,
) -> BuilderView {
    let name = b.worklist[k];
    crate::model::walked(
        crate::model::made_way(crate::model::popped(b, k + 1), name),
        name,
        node,
        base_of(b, node),
        manifest,
    )
}

/// Whether a graph has the package of a dependency, from a source of the kind that the dependency
/// names, and of a version that it admits if the package has one.
pub open spec fn is_met(nodes: Map<Name, NodeView>, d: DependencyView) -> bool {
    &&& nodes.contains_key(d.package)
    &&& nodes[d.package].source is Local == d.manifest is Local
    &&& nodes[d.package].resolved_version matches Some(v) ==> crate::version::satisfies(
        crate::model::requirement_of(d),
        v,
    )
}

/// Whether a graph meets every dependency of the root manifest and of the manifests of its
/// packages.
pub open spec fn meets_every_dependency(
    nodes: Map<Name, NodeView>,
    root: Seq<DependencyView>,
    manifests: Map<Name, ManifestView>,
) -> bool {
    &&& forall|i: int| 0 <= i < root.len() ==> is_met(nodes, #[trigger] root[i])
    &&& forall|n: Name, i: int|
        nodes.contains_key(n) && 0 <= i < manifests[n].dependencies.len() ==> is_met(
            nodes,
            #[trigger] manifests[n].dependencies[i],
        )
}

/// What a step resolves, and to what: a position in the worklist, a node and its manifest.
pub struct Choice {
    pub k: int,
    pub node: NodeView,
    pub manifest: ManifestView,
}

/// Whether each choice is a step, without a conflict, from its state to the next.
pub open spec fn is_resolution(states: Seq<BuilderView>, choices: Seq<Choice>) -> bool {
    &&& states.len() == choices.len() + 1
    &&& forall|i: int|
        0 <= i < choices.len() ==> {
            let c = #[trigger] choices[i];
            &&& is_step(states[i], c.k, c.node, c.manifest)
            &&& crate::model::no_conflict(
                entered(states[i], c.k, c.node),
                Some(states[i].worklist[c.k]),
                c.manifest.dependencies,
            )
            &&& states[i + 1] == stepped(states[i], c.k, c.node, c.manifest)
        }
}

/// The manifests of the packages as they were last resolved by the first `i` choices.
pub open spec fn manifests_after(
    states: Seq<BuilderView>,
    choices: Seq<Choice>,
    i: int,
) -> Map<Name, ManifestView>
    decreases i,
{
    if i <= 0 {
        Map::empty()
    } else {
        manifests_after(states, choices, i - 1).insert(
            states[i - 1].worklist[choices[i - 1].k],
            choices[i - 1].manifest,
        )
    }
}

proof fn lemma_edge_keeps_edges(
    b: BuilderView,
    parent: Option<Name>,
    added: DependencyView,
    from: Option<Name>,
    d: DependencyView,
)
    requires
        has_edge(b, from, d),
    ensures
        has_edge(crate::model::with_edge(b, parent, added), from, d),
{
    if d.package == added.package {
        let edge = EdgeView { from, req: crate::model::requirement_of(d) };
        crate::lists::lemma_push_contains(
            b.requirements[d.package],
            EdgeView { from: parent, req: crate::model::requirement_of(added) },
            edge,
        );
    }
}

proof fn lemma_edge_is_there(b: BuilderView, parent: Option<Name>, added: DependencyView)
    requires
        crate::model::is_consistent(b),
        !crate::model::conflicts(b, added),
    ensures
        has_edge(crate::model::with_edge(b, parent, added), parent, added),
{
    let edge = EdgeView { from: parent, req: crate::model::requirement_of(added) };
    crate::lists::lemma_push_contains(crate::model::edges_of(b, added.package), edge, edge);
}

proof fn lemma_edge_keeps_schedule(b: BuilderView, parent: Option<Name>, added: DependencyView)
    requires
        crate::model::is_scheduled(b, None),
    ensures
        crate::model::is_scheduled(crate::model::with_edge(b, parent, added), None),
{
    let mid = crate::model::with_requirement(b, parent, added);
    let after = crate::model::with_edge(b, parent, added);
    assert forall|n: Name| #[trigger]
        after.requirements.contains_key(n) && crate::model::needs_visit(
            after,
            n,
        ) implies after.worklist.contains(n) by {
        if n == added.package {
            assert(crate::model::needs_visit(mid, n));
            crate::lists::lemma_push_contains(mid.worklist, n, n);
        } else {
            assert(b.requirements.contains_key(n));
            assert(crate::model::needs_visit(b, n));
            crate::lists::lemma_push_contains(mid.worklist, added.package, n);
        }
    }
}

/// Edges keep what is recorded, record what they are of, and schedule what they make due.
proof fn lemma_edges_are_recorded(
    b: BuilderView,
    parent: Option<Name>,
    dependencies: Seq<DependencyView>,
)
    requires
        crate::model::is_consistent(b),
        crate::model::is_scheduled(b, None),
        crate::model::no_conflict(b, parent, dependencies),
    ensures
        ({
            let after = crate::model::with_edges(b, parent, dependencies);
            &&& crate::model::is_consistent(after)
            &&& crate::model::is_scheduled(after, None)
            &&& has_edges(after, parent, dependencies)
            &&& forall|from: Option<Name>, d: DependencyView| #[trigger]
                has_edge(b, from, d) ==> has_edge(after, from, d)
            &&& forall|n: Name| #[trigger]
                b.sources.contains_key(n) ==> after.sources.contains_key(n) && after.sources[n]
                    == b.sources[n]
        }),
    decreases dependencies.len(),
{
    if dependencies.len() > 0 {
        let rest = dependencies.drop_last();
        let last = dependencies.last();
        crate::laws::lemma_conflicts_of_prefix(b, parent, dependencies);
        lemma_edges_are_recorded(b, parent, rest);
        let mid = crate::model::with_edges(b, parent, rest);
        let after = crate::model::with_edges(b, parent, dependencies);
        crate::laws::law_edge_keeps_consistency(mid, parent, last);
        lemma_edge_keeps_schedule(mid, parent, last);
        lemma_edge_is_there(mid, parent, last);
        assert forall|from: Option<Name>, d: DependencyView| has_edge(
            mid,
            from,
            d,
        ) implies #[trigger] has_edge(after, from, d) by {
            lemma_edge_keeps_edges(mid, parent, last, from, d);
        }
        assert forall|i: int| 0 <= i < dependencies.len() implies has_edge(
            after,
            parent,
            #[trigger] dependencies[i],
        ) by {
            if i < rest.len() {
                assert(rest[i] == dependencies[i]);
                assert(has_edge(mid, parent, rest[i]));
            }
        }
        assert forall|from: Option<Name>, d: DependencyView| #[trigger]
            has_edge(b, from, d) implies has_edge(after, from, d) by {
            assert(has_edge(mid, from, d));
        }
    }
}

/// Chains stay where packages keep their nodes and requirements are only added.
proof fn lemma_chain_grows(b: BuilderView, after: BuilderView, path: Seq<Name>)
    requires
        crate::model::is_chain(b, None, path),
        after.nodes == b.nodes,
        forall|n: Name| #[trigger]
            b.requirements.contains_key(n) ==> after.requirements.contains_key(n)
                && b.requirements[n].is_prefix_of(after.requirements[n]),
    ensures
        crate::model::is_chain(after, None, path),
{
    assert forall|n: Name, from: Option<Name>|
        b.requirements.contains_key(n) && crate::model::has_edge_from(
            b.requirements[n],
            from,
        ) implies #[trigger] crate::model::has_edge_from(after.requirements[n], from) by {
        let edges = b.requirements[n];
        let k = choose|k: int| 0 <= k < edges.len() && (#[trigger] edges[k]).from == from;
        assert(after.requirements[n].subrange(0, edges.len() as int)[k] == edges[k]);
        assert(after.requirements[n][k].from == from);
    }
    assert(crate::model::has_edge_from(after.requirements[path[0]], None));
    assert forall|i: int| 0 <= i < path.len() - 1 implies None::<Name> != Some(#[trigger] path[i])
        && crate::model::leads(after, path[i], path[i + 1]) by {
        assert(crate::model::leads(b, path[i], path[i + 1]));
        assert(crate::model::has_edge_from(after.requirements[path[i + 1]], Some(path[i])));
    }
}

/// A chain can be followed by a package that its last package leads to.
proof fn lemma_chain_push(b: BuilderView, path: Seq<Name>, name: Name)
    requires
        crate::model::is_chain(b, None, path),
        crate::model::leads(b, path.last(), name),
    ensures
        crate::model::is_reached(b, None, name),
{
    let longer = path.push(name);
    assert forall|i: int| 0 <= i < longer.len() - 1 implies None::<Name> != Some(#[trigger] longer[i])
        && crate::model::leads(b, longer[i], longer[i + 1]) by {
        if i < path.len() - 1 {
            assert(crate::model::leads(b, path[i], path[i + 1]));
        }
    }
    assert(crate::model::is_chain(b, None, longer));
    assert(longer.last() == name);
}

/// An edge of the root manifest, or of a package that is required and depends on what it is on,
/// keeps every package within reach.
proof fn lemma_edge_keeps_reach(
    b: BuilderView,
    parent: Option<Name>,
    d: DependencyView,
    root: Seq<DependencyView>,
)
    requires
        is_reachable(b, root),
        match parent {
            None => crate::model::names_of(root).contains(d.package),
            Some(p) => b.requirements.contains_key(p) && crate::graph::depends(
                b.nodes,
                p,
                d.package,
            ),
        },
    ensures
        is_reachable(crate::model::with_edge(b, parent, d), root),
{
    reveal(is_reachable);
    let after = crate::model::with_edge(b, parent, d);
    let name = d.package;
    let edges = crate::model::edges_of(b, name);
    assert(after.requirements[name].len() == edges.len() + 1);
    assert(after.requirements[name][edges.len() as int].from == parent);
    assert forall|n: Name| #[trigger] b.requirements.contains_key(
        n,
    ) implies after.requirements.contains_key(n) && b.requirements[n].is_prefix_of(
        after.requirements[n],
    ) by {
        assert(after.requirements[n].subrange(0, b.requirements[n].len() as int)
            =~= b.requirements[n]);
    }
    assert forall|n: Name| #[trigger] after.requirements.contains_key(
        n,
    ) implies crate::model::is_reached(after, None, n) by {
        if b.requirements.contains_key(n) {
            let path = choose|path: Seq<Name>| #[trigger]
                crate::model::is_chain(b, None, path) && path.last() == n;
            lemma_chain_grows(b, after, path);
        } else {
            match parent {
                None => {
                    assert(crate::model::is_chain(after, None, seq![n]));
                    assert(seq![n].last() == n);
                },
                Some(p) => {
                    let path = choose|path: Seq<Name>| #[trigger]
                        crate::model::is_chain(b, None, path) && path.last() == p;
                    lemma_chain_grows(b, after, path);
                    assert(crate::model::leads(after, p, n));
                    lemma_chain_push(after, path, n);
                },
            }
        }
    }
    assert forall|n: Name| #[trigger] crate::model::is_root(
        after,
        n,
    ) implies crate::model::names_of(root).contains(n) by {
        let k = choose|k: int|
            0 <= k < after.requirements[n].len() && (#[trigger] after.requirements[n][k]).from
                == None::<Name>;
        if n != name {
            assert(b.requirements[n][k].from is None);
            assert(crate::model::is_root(b, n));
        } else if k < edges.len() {
            assert(b.requirements[n][k].from is None);
            assert(crate::model::is_root(b, n));
        }
    }
}

proof fn lemma_edges_keep_reach(
    b: BuilderView,
    parent: Option<Name>,
    dependencies: Seq<DependencyView>,
    root: Seq<DependencyView>,
)
    requires
        is_reachable(b, root),
        parent matches Some(p) ==> b.requirements.contains_key(p),
        forall|i: int|
            0 <= i < dependencies.len() ==> match parent {
                None => crate::model::names_of(root).contains(
                    (#[trigger] dependencies[i]).package,
                ),
                Some(p) => crate::graph::depends(b.nodes, p, dependencies[i].package),
            },
    ensures
        is_reachable(crate::model::with_edges(b, parent, dependencies), root),
    decreases dependencies.len(),
{
    if dependencies.len() > 0 {
        let rest = dependencies.drop_last();
        let last = dependencies[dependencies.len() - 1];
        assert forall|i: int| 0 <= i < rest.len() implies match parent {
            None => crate::model::names_of(root).contains((#[trigger] rest[i]).package),
            Some(p) => crate::graph::depends(b.nodes, p, rest[i].package),
        } by {
            assert(rest[i] == dependencies[i]);
        }
        lemma_edges_keep_reach(b, parent, rest, root);
        crate::laws::lemma_edges_keep_the_rest(b, parent, rest);
        if parent is Some {
            crate::laws::law_edges_only_extend(b, parent, rest, parent->0);
        }
        lemma_edge_keeps_reach(crate::model::with_edges(b, parent, rest), parent, last, root);
    }
}

/// An edge that comes from the root manifest, or from a package that stays and depends on what it
/// is on, outlasts a retraction.
proof fn lemma_edge_outlasts(b: BuilderView, parent: Name, from: Option<Name>, d: DependencyView)
    requires
        crate::model::is_consistent(b),
        has_edge(b, from, d),
        from matches Some(p) ==> p != parent && b.requirements.contains_key(p)
            && !crate::model::is_dropped(b, parent, p) && crate::graph::depends(
            b.nodes,
            p,
            d.package,
        ),
    ensures
        has_edge(crate::model::retracted(b, parent), from, d),
{
    let name = d.package;
    let edges = b.requirements[name];
    let edge = EdgeView { from, req: crate::model::requirement_of(d) };
    let k = edges.index_of(edge);
    assert(edges[k].from == from);
    assert(!crate::model::is_retracted(b, parent, edges[k]));
    assert(!crate::model::is_dropped(b, parent, name)) by {
        match from {
            None => {
                assert(crate::model::is_chain(b, Some(parent), seq![name]));
                assert(seq![name].last() == name);
            },
            Some(p) => {
                if p != name {
                    let path = choose|path: Seq<Name>| #[trigger]
                        crate::model::is_chain(b, Some(parent), path) && path.last() == p;
                    let longer = path.push(name);
                    assert(crate::model::leads(b, p, name));
                    assert forall|i: int| 0 <= i < longer.len() - 1 implies Some(parent) != Some(
                        #[trigger] longer[i],
                    ) && crate::model::leads(b, longer[i], longer[i + 1]) by {
                        if i < path.len() - 1 {
                            assert(crate::model::leads(b, path[i], path[i + 1]));
                        }
                    }
                    assert(crate::model::is_chain(b, Some(parent), longer));
                    assert(longer.last() == name);
                }
            },
        }
    }
    crate::laws::lemma_edge_stays(b, parent, name, k);
}

/// A resolution begins with every dependency of the root manifest recorded and scheduled.
pub proof fn law_beginning_is_justified(
    base_path: Seq<Seq<char>>,
    root_package_type: Option<PackageType>,
    lockfile: Option<Seq<LockedView>>,
    network_mode: NetworkMode,
    root: Seq<DependencyView>,
)
    requires
        crate::model::no_conflict(
            crate::model::initial(base_path, root_package_type, lockfile, network_mode),
            None,
            root,
        ),
    ensures
        is_justified(
            crate::model::with_edges(
                crate::model::initial(base_path, root_package_type, lockfile, network_mode),
                None,
                root,
            ),
            root,
            Map::empty(),
        ),
{
    let b = crate::model::initial(base_path, root_package_type, lockfile, network_mode);
    assert(b.sources.dom() =~= b.requirements.dom());
    lemma_edges_are_recorded(b, None, root);
    crate::laws::lemma_edges_keep_the_rest(b, None, root);
    assert forall|i: int| 0 <= i < root.len() implies crate::model::names_of(root).contains(
        (#[trigger] root[i]).package,
    ) by {
        assert(crate::model::names_of(root)[i] == root[i].package);
    }
    assert(is_reachable(b, root)) by {
        reveal(is_reachable);
    }
    lemma_edges_keep_reach(b, None, root, root);
}

/// A package that is due is not resolved to a version that every requirement on it admits: its pick
/// changes with every step.
pub proof fn law_due_package_changes_its_pick(
    b: BuilderView,
    k: int,
    node: NodeView,
    manifest: ManifestView,
)
    requires
        is_step(b, k, node, manifest),
    ensures
        node.resolved_version matches Some(v) ==> !crate::model::is_resolved_to(
            b,
            b.worklist[k],
            v,
        ),
{
}

/// When the next package leaves the worklist, it is the one package that is due and not scheduled.
pub proof fn law_drive_keeps_schedule(b: BuilderView, k: int)
    requires
        crate::model::is_scheduled(b, None),
        crate::model::next_due(b, k),
    ensures
        crate::model::is_scheduled(crate::model::popped(b, k + 1), Some(b.worklist[k])),
{
    let after = crate::model::popped(b, k + 1);
    assert forall|n: Name| #[trigger]
        after.requirements.contains_key(n) && Some(b.worklist[k]) != Some(n)
            && crate::model::needs_visit(after, n) implies after.worklist.contains(n) by {
        assert(b.requirements.contains_key(n));
        assert(crate::model::needs_visit(b, n));
        let j = b.worklist.index_of(n);
        assert(crate::model::is_due(b, b.worklist[j]));
        assert(after.worklist[j - (k + 1)] == n);
    }
}

/// The next package can be put off.
pub proof fn law_putting_off_keeps_justified(
    b: BuilderView,
    root: Seq<DependencyView>,
    manifests: Map<Name, ManifestView>,
    k: int,
)
    requires
        is_justified(b, root, manifests),
        crate::model::next_due(b, k),
    ensures
        is_justified(
            crate::model::put_off(crate::model::popped(b, k + 1), b.worklist[k]),
            root,
            manifests,
        ),
{
    let name = b.worklist[k];
    let popped = crate::model::popped(b, k + 1);
    let after = crate::model::put_off(popped, name);
    crate::laws::law_pops_keep_consistency(b, k + 1);
    law_drive_keeps_schedule(b, k);
    assert(!popped.worklist.contains(name)) by {
        if popped.worklist.contains(name) {
            let j = popped.worklist.index_of(name);
            assert(b.worklist[k + 1 + j] == b.worklist[k]);
        }
    }
    crate::lists::lemma_push_distinct(popped.worklist, name);
    assert forall|n: Name| #[trigger]
        after.requirements.contains_key(n) && crate::model::needs_visit(
            after,
            n,
        ) implies after.worklist.contains(n) by {
        crate::lists::lemma_push_contains(popped.worklist, name, n);
        assert(popped.requirements.contains_key(n));
        assert(crate::model::needs_visit(popped, n));
    }
    lemma_same_records(b, after, None, root);
    lemma_same_reach(b, after, root);
    assert forall|n: Name| #[trigger] after.nodes.contains_key(n) implies manifests.contains_key(n)
        && is_walked(after, n, manifests[n]) by {
        assert(b.nodes.contains_key(n));
        lemma_same_records(b, after, Some(n), manifests[n].dependencies);
    }
}

/// The order of the worklist plays no part.
pub proof fn law_order_keeps_justified(
    b: BuilderView,
    root: Seq<DependencyView>,
    manifests: Map<Name, ManifestView>,
    after: BuilderView,
)
    requires
        is_justified(b, root, manifests),
        after == (BuilderView { worklist: after.worklist, ..b }),
        after.worklist.no_duplicates(),
        forall|n: Name| #[trigger] after.worklist.contains(n) == b.worklist.contains(n),
    ensures
        is_justified(after, root, manifests),
{
    assert forall|n: Name| #[trigger]
        after.requirements.contains_key(n) && crate::model::needs_visit(
            after,
            n,
        ) implies after.worklist.contains(n) by {
        assert(b.requirements.contains_key(n));
        assert(crate::model::needs_visit(b, n));
        assert(b.worklist.contains(n));
    }
    lemma_same_records(b, after, None, root);
    lemma_same_reach(b, after, root);
    assert forall|n: Name| #[trigger] after.nodes.contains_key(n) implies manifests.contains_key(n)
        && is_walked(after, n, manifests[n]) by {
        assert(b.nodes.contains_key(n));
        lemma_same_records(b, after, Some(n), manifests[n].dependencies);
    }
}

/// An edge that is still asked for stays.
pub proof fn lemma_live_stays(b: BuilderView, name: Name, edge: EdgeView)
    requires
        b.requirements.contains_key(name),
        b.requirements[name].contains(edge),
        crate::model::is_live(b, name, edge),
    ensures
        crate::model::pruned(b, name).requirements[name].contains(edge),
{
    let edges = b.requirements[name];
    crate::lists::lemma_filter_contents(
        edges,
        |e: EdgeView| crate::model::is_live(b, name, e),
    );
    assert(crate::model::is_live(b, name, edges[edges.index_of(edge)]));
}

/// Pruning adds no requirement.
proof fn lemma_pruned_edges(b: BuilderView, name: Name, edge: EdgeView)
    requires
        b.requirements.contains_key(name),
        crate::model::pruned(b, name).requirements[name].contains(edge),
    ensures
        b.requirements[name].contains(edge),
{
    crate::lists::lemma_filter_contents(
        b.requirements[name],
        |e: EdgeView| crate::model::is_live(b, name, e),
    );
    let left = crate::model::pruned(b, name).requirements[name];
    let k = left.index_of(edge);
    assert(left[k] == edge);
}

/// Pruning keeps every package within reach.
proof fn lemma_pruning_keeps_reach(b: BuilderView, root: Seq<DependencyView>, name: Name)
    requires
        is_reachable(b, root),
        b.requirements.contains_key(name),
    ensures
        is_reachable(crate::model::pruned(b, name), root),
{
    reveal(is_reachable);
    let after = crate::model::pruned(b, name);
    assert forall|n: Name, from: Option<Name>|
        b.requirements.contains_key(n) && crate::model::has_edge_from(b.requirements[n], from) && (
        from matches Some(p) ==> crate::graph::depends(b.nodes, p, n)) implies #[trigger] crate::model::has_edge_from(
    after.requirements[n], from) by {
        let edges = b.requirements[n];
        let k = choose|k: int| 0 <= k < edges.len() && (#[trigger] edges[k]).from == from;
        if n == name {
            assert(edges.contains(edges[k]));
            lemma_live_stays(b, name, edges[k]);
            let left = after.requirements[n];
            let j = left.index_of(edges[k]);
            assert(left[j].from == from);
        } else {
            assert(after.requirements[n][k].from == from);
        }
    }
    assert forall|n: Name| #[trigger] after.requirements.contains_key(
        n,
    ) implies crate::model::is_reached(after, None, n) by {
        assert(b.requirements.contains_key(n));
        let path = choose|path: Seq<Name>| #[trigger]
            crate::model::is_chain(b, None, path) && path.last() == n;
        assert(crate::model::is_root(b, path[0]));
        assert(crate::model::has_edge_from(after.requirements[path[0]], None));
        assert forall|i: int| 0 <= i < path.len() - 1 implies None::<Name> != Some(#[trigger] path[i])
            && crate::model::leads(after, path[i], path[i + 1]) by {
            assert(crate::model::leads(b, path[i], path[i + 1]));
            assert(crate::model::has_edge_from(after.requirements[path[i + 1]], Some(path[i])));
        }
        assert(crate::model::is_chain(after, None, path));
    }
    assert forall|n: Name| #[trigger] crate::model::is_root(
        after,
        n,
    ) implies crate::model::names_of(root).contains(n) by {
        let left = after.requirements[n];
        let k = choose|k: int| 0 <= k < left.len() && (#[trigger] left[k]).from == None::<Name>;
        if n == name {
            assert(left.contains(left[k]));
            lemma_pruned_edges(b, name, left[k]);
            let j = b.requirements[n].index_of(left[k]);
            assert(b.requirements[n][j].from is None);
        } else {
            assert(b.requirements[n][k].from is None);
        }
        assert(crate::model::is_root(b, n));
    }
}

/// A package that is due after requirements on it were pruned was due before.
pub proof fn law_pruning_brings_no_visit(b: BuilderView, name: Name)
    requires
        b.requirements.contains_key(name),
        crate::model::needs_visit(crate::model::pruned(b, name), name),
    ensures
        crate::model::needs_visit(b, name),
{
    let after = crate::model::pruned(b, name);
    if b.nodes.contains_key(name) && b.nodes[name].resolved_version is Some {
        let v = b.nodes[name].resolved_version->0;
        if crate::pick::satisfies_all(crate::model::edge_reqs(b.requirements[name]), v) {
            let left = after.requirements[name];
            assert forall|i: int| 0 <= i < left.len() implies crate::version::satisfies(
                #[trigger] crate::model::edge_reqs(left)[i],
                v,
            ) by {
                assert(left.contains(left[i]));
                lemma_pruned_edges(b, name, left[i]);
                let j = b.requirements[name].index_of(left[i]);
                assert(crate::model::edge_reqs(b.requirements[name])[j] == left[i].req);
            }
        }
    }
}

/// Requirements that are no longer asked for can be pruned.
pub proof fn law_pruning_keeps_justified(
    b: BuilderView,
    root: Seq<DependencyView>,
    manifests: Map<Name, ManifestView>,
    name: Name,
)
    requires
        is_justified(b, root, manifests),
        b.requirements.contains_key(name),
    ensures
        is_justified(crate::model::pruned(b, name), root, manifests),
{
    let after = crate::model::pruned(b, name);
    lemma_pruning_keeps_reach(b, root, name);
    assert(after.requirements.dom() =~= b.requirements.dom());
    assert(crate::model::is_consistent(after)) by {
        assert forall|n: Name| #[trigger] after.requirements.contains_key(
            n,
        ) implies after.requirements[n].len() > 0 by {
            assert(b.requirements.contains_key(n));
        }
        assert forall|n: Name| #[trigger] after.nodes.contains_key(
            n,
        ) implies after.requirements.contains_key(n) && crate::model::node_is_pinned(
            n,
            after.nodes[n],
        ) by {
            assert(b.nodes.contains_key(n));
        }
    }
    assert forall|n: Name| #[trigger]
        after.requirements.contains_key(n) && crate::model::needs_visit(
            after,
            n,
        ) implies after.worklist.contains(n) by {
        assert(b.requirements.contains_key(n));
        if n == name {
            law_pruning_brings_no_visit(b, name);
        }
        assert(crate::model::needs_visit(b, n));
    }
    assert forall|i: int| 0 <= i < root.len() implies has_edge(after, None, #[trigger] root[i]) by {
        assert(has_edge(b, None, root[i]));
        if root[i].package == name {
            lemma_live_stays(
                b,
                name,
                EdgeView { from: None, req: crate::model::requirement_of(root[i]) },
            );
        }
    }
    assert forall|n: Name| #[trigger] after.nodes.contains_key(n) implies manifests.contains_key(n)
        && is_walked(after, n, manifests[n]) by {
        assert(b.nodes.contains_key(n));
        assert(is_walked(b, n, manifests[n]));
        let all = manifests[n].dependencies;
        assert forall|i: int| 0 <= i < all.len() implies has_edge(
            after,
            Some(n),
            #[trigger] all[i],
        ) by {
            assert(has_edge(b, Some(n), all[i]));
            if all[i].package == name {
                assert(manifests[n].dependency_names()[i] == all[i].package);
                lemma_live_stays(
                    b,
                    name,
                    EdgeView { from: Some(n), req: crate::model::requirement_of(all[i]) },
                );
            }
        }
    }
}

/// What is reached has a requirement that is asked for: pruning leaves those alone.
pub proof fn law_pruning_leaves_what_is_asked_for(b: BuilderView, name: Name)
    requires
        crate::model::is_reached(b, None, name),
    ensures
        crate::model::live_edges(b, name).len() > 0,
        crate::model::pruned(b, name).requirements[name] == crate::model::live_edges(b, name),
{
    let path = choose|path: Seq<Name>| #[trigger]
        crate::model::is_chain(b, None, path) && path.last() == name;
    let from = if path.len() == 1 {
        None
    } else {
        Some(path[path.len() - 2])
    };
    assert(path[path.len() - 1] == name);
    if path.len() > 1 {
        assert(crate::model::leads(b, path[path.len() - 2], path[path.len() - 2 + 1]));
    }
    let edges = b.requirements[name];
    assert(crate::model::has_edge_from(edges, from));
    let k = choose|k: int| 0 <= k < edges.len() && (#[trigger] edges[k]).from == from;
    crate::lists::lemma_filter_contents(
        edges,
        |e: EdgeView| crate::model::is_live(b, name, e),
    );
    assert(crate::model::is_live(b, name, edges[k]));
    assert(crate::model::live_edges(b, name).contains(edges[k]));
}

/// A retraction keeps every package that stays within reach, and nothing leads on from the package
/// whose contributions are retracted.
proof fn lemma_retraction_keeps_reachable(
    b: BuilderView,
    root: Seq<DependencyView>,
    name: Name,
)
    requires
        is_reachable(b, root),
    ensures
        is_reachable(crate::model::retracted(b, name), root),
        forall|n: Name| !crate::model::leads(crate::model::retracted(b, name), name, n),
{
    reveal(is_reachable);
    let after = crate::model::retracted(b, name);
    crate::laws::law_retraction_keeps_reach(b, name);
    assert forall|n: Name| #[trigger] crate::model::is_root(
        after,
        n,
    ) implies crate::model::names_of(root).contains(n) by {
        let k = choose|k: int|
            0 <= k < after.requirements[n].len() && (#[trigger] after.requirements[n][k]).from
                == None::<Name>;
        if n != name {
            crate::laws::law_retraction_leaves_no_trace(b, name, n, k);
            let j = b.requirements[n].index_of(after.requirements[n][k]);
            assert(b.requirements[n][j].from is None);
        } else {
            assert(b.requirements[n][k].from is None);
        }
        assert(crate::model::is_root(b, n));
    }
    assert forall|n: Name| !crate::model::leads(after, name, n) by {
        if crate::model::leads(after, name, n) {
            let k = choose|k: int|
                0 <= k < after.requirements[n].len() && (
                #[trigger] after.requirements[n][k]).from == Some(name);
            crate::laws::law_retraction_leaves_no_trace(b, name, n, k);
        }
    }
}

/// What a package leaves behind when it makes way for another pick.
proof fn lemma_way_is_made(
    b: BuilderView,
    root: Seq<DependencyView>,
    manifests: Map<Name, ManifestView>,
    name: Name,
)
    requires
        crate::model::is_consistent(b),
        crate::model::is_scheduled(b, Some(name)),
        has_edges(b, None, root),
        forall|n: Name| #[trigger]
            b.nodes.contains_key(n) ==> manifests.contains_key(n) && is_walked(b, n, manifests[n]),
        b.requirements.contains_key(name),
        is_reachable(b, root),
    ensures
        ({
            let after = crate::model::made_way(b, name);
            &&& crate::model::is_consistent(after)
            &&& crate::model::is_scheduled(after, Some(name))
            &&& has_edges(after, None, root)
            &&& forall|n: Name| #[trigger]
                after.nodes.contains_key(n) && n != name ==> manifests.contains_key(n)
                    && is_walked(after, n, manifests[n])
            &&& after.requirements.contains_key(name)
            &&& after.requirements[name] == b.requirements[name]
            &&& after.sources[name] == b.sources[name]
            &&& is_reachable(after, root)
            &&& forall|n: Name| !crate::model::leads(after, name, n)
        }),
{
    let after = crate::model::made_way(b, name);
    if b.nodes.contains_key(name) {
        crate::laws::law_retraction_keeps_consistency(b, name);
        crate::laws::law_retraction_keeps_schedule(b, name);
        lemma_retraction_keeps_reachable(b, root, name);
        assert(b.sources.dom().contains(name) == b.requirements.dom().contains(name));
        assert forall|i: int| 0 <= i < root.len() implies has_edge(
            after,
            None,
            #[trigger] root[i],
        ) by {
            lemma_edge_outlasts(b, name, None, root[i]);
        }
        assert forall|n: Name| #[trigger]
            after.nodes.contains_key(n) && n != name implies manifests.contains_key(n) && is_walked(
            after,
            n,
            manifests[n],
        ) by {
            assert(b.nodes.contains_key(n));
            let all = manifests[n].dependencies;
            assert forall|i: int| 0 <= i < all.len() implies has_edge(
                after,
                Some(n),
                #[trigger] all[i],
            ) by {
                assert(manifests[n].dependency_names()[i] == all[i].package);
                assert(b.requirements.contains_key(n));
                lemma_edge_outlasts(b, name, Some(n), all[i]);
            }
            assert(b.requirements.contains_key(n));
            assert(b.sources.dom().contains(n) == b.requirements.dom().contains(n));
        }
    }
}

/// Every step keeps what is recorded of the packages that stay, records what the manifest of the
/// package says, and schedules whatever it makes due.
pub proof fn law_steps_keep_justified(
    b: BuilderView,
    root: Seq<DependencyView>,
    manifests: Map<Name, ManifestView>,
    k: int,
    node: NodeView,
    manifest: ManifestView,
)
    requires
        is_justified(b, root, manifests),
        is_step(b, k, node, manifest),
        crate::model::no_conflict(
            entered(b, k, node),
            Some(b.worklist[k]),
            manifest.dependencies,
        ),
    ensures
        is_justified(
            stepped(b, k, node, manifest),
            root,
            manifests.insert(b.worklist[k], manifest),
        ),
{
    let name = b.worklist[k];
    let popped = crate::model::popped(b, k + 1);
    let way = crate::model::made_way(popped, name);
    let now = entered(b, k, node);
    let last = crate::model::with_edges(now, Some(name), manifest.dependencies);
    let after = stepped(b, k, node, manifest);
    let known = manifests.insert(name, manifest);
    crate::laws::law_pops_keep_consistency(b, k + 1);
    law_drive_keeps_schedule(b, k);
    assert forall|n: Name| #[trigger] popped.nodes.contains_key(n) implies manifests.contains_key(n)
        && is_walked(popped, n, manifests[n]) by {
        assert(b.nodes.contains_key(n));
        assert(is_walked(b, n, manifests[n]));
        lemma_same_records(b, popped, Some(n), manifests[n].dependencies);
    }
    lemma_same_records(b, popped, None, root);
    lemma_same_reach(b, popped, root);
    lemma_way_is_made(popped, root, manifests, name);
    crate::laws::law_node_keeps_consistency(way, name, node);
    assert(crate::model::is_consistent(now));
    assert(!crate::model::needs_visit(now, name));
    assert(crate::model::is_scheduled(now, None)) by {
        assert forall|n: Name| #[trigger]
            now.requirements.contains_key(n) && crate::model::needs_visit(
                now,
                n,
            ) implies now.worklist.contains(n) by {
            assert(way.requirements.contains_key(n));
            assert(crate::model::needs_visit(way, n));
        }
    }
    lemma_edges_are_recorded(now, Some(name), manifest.dependencies);
    crate::laws::lemma_edges_keep_the_rest(now, Some(name), manifest.dependencies);
    lemma_node_keeps_reach(way, now, root, name);
    assert forall|i: int| 0 <= i < manifest.dependencies.len() implies crate::graph::depends(
        now.nodes,
        name,
        (#[trigger] manifest.dependencies[i]).package,
    ) by {
        assert(manifest.dependency_names()[i] == manifest.dependencies[i].package);
        assert(node.dependencies == manifest.dependency_names());
    }
    lemma_edges_keep_reach(now, Some(name), manifest.dependencies, root);
    lemma_same_reach(last, after, root);
    lemma_kept_records(way, now, last, None, root);
    lemma_same_records(last, after, None, root);
    assert forall|n: Name| #[trigger] after.nodes.contains_key(n) implies known.contains_key(n)
        && is_walked(after, n, known[n]) by {
        if n == name {
            lemma_same_records(last, after, Some(name), manifest.dependencies);
            assert(now.sources.contains_key(name)) by {
                assert(way.sources.dom().contains(name) == way.requirements.dom().contains(name));
            }
        } else {
            assert(way.nodes.contains_key(n));
            assert(is_walked(way, n, manifests[n]));
            lemma_kept_records(way, now, last, Some(n), manifests[n].dependencies);
            lemma_same_records(last, after, Some(n), manifests[n].dependencies);
            assert(way.requirements.contains_key(n));
            assert(now.sources.contains_key(n)) by {
                assert(way.sources.dom().contains(n) == way.requirements.dom().contains(n));
            }
        }
    }
    assert(crate::model::is_consistent(after));
    assert(crate::model::is_scheduled(after, None)) by {
        assert forall|n: Name| #[trigger]
            after.requirements.contains_key(n) && crate::model::needs_visit(
                after,
                n,
            ) implies after.worklist.contains(n) by {
            assert(last.requirements.contains_key(n));
            assert(crate::model::needs_visit(last, n));
        }
    }
}

/// Reach goes by nodes and requirements alone.
pub proof fn lemma_same_reach(b: BuilderView, after: BuilderView, root: Seq<DependencyView>)
    requires
        is_reachable(b, root),
        after.nodes == b.nodes,
        after.requirements == b.requirements,
    ensures
        is_reachable(after, root),
{
    reveal(is_reachable);
    assert forall|n: Name| #[trigger] after.requirements.contains_key(
        n,
    ) implies crate::model::is_reached(after, None, n) by {
        assert(b.requirements.contains_key(n));
        let path = choose|path: Seq<Name>| #[trigger]
            crate::model::is_chain(b, None, path) && path.last() == n;
        assert forall|i: int| 0 <= i < path.len() - 1 implies None::<Name> != Some(#[trigger] path[i])
            && crate::model::leads(after, path[i], path[i + 1]) by {
            assert(crate::model::leads(b, path[i], path[i + 1]));
        }
        assert(crate::model::is_root(b, path[0]));
        assert(crate::model::is_chain(after, None, path));
    }
    assert forall|n: Name| #[trigger] crate::model::is_root(
        after,
        n,
    ) implies crate::model::names_of(root).contains(n) by {
        assert(crate::model::is_root(b, n));
    }
}

/// The node of a package that does not lead on changes nothing in what is reached.
proof fn lemma_node_keeps_reach(
    b: BuilderView,
    after: BuilderView,
    root: Seq<DependencyView>,
    name: Name,
)
    requires
        is_reachable(b, root),
        forall|n: Name| !crate::model::leads(b, name, n),
        after.requirements == b.requirements,
        forall|n: Name| n != name ==> (#[trigger] after.nodes.contains_key(n) == b.nodes.contains_key(n)),
        forall|n: Name| n != name && b.nodes.contains_key(n) ==> #[trigger] after.nodes[n] == b.nodes[n],
    ensures
        is_reachable(after, root),
{
    reveal(is_reachable);
    assert forall|n: Name| #[trigger] after.requirements.contains_key(
        n,
    ) implies crate::model::is_reached(after, None, n) by {
        assert(b.requirements.contains_key(n));
        let path = choose|path: Seq<Name>| #[trigger]
            crate::model::is_chain(b, None, path) && path.last() == n;
        assert forall|i: int| 0 <= i < path.len() - 1 implies None::<Name> != Some(#[trigger] path[i])
            && crate::model::leads(after, path[i], path[i + 1]) by {
            assert(crate::model::leads(b, path[i], path[i + 1]));
            assert(path[i] != name);
            assert(after.nodes.contains_key(path[i]));
        }
        assert(crate::model::is_root(b, path[0]));
        assert(crate::model::is_chain(after, None, path));
    }
    assert forall|n: Name| #[trigger] crate::model::is_root(
        after,
        n,
    ) implies crate::model::names_of(root).contains(n) by {
        assert(crate::model::is_root(b, n));
    }
}

/// Records go by requirements and sources alone.
pub proof fn lemma_same_records(
    b: BuilderView,
    after: BuilderView,
    from: Option<Name>,
    dependencies: Seq<DependencyView>,
)
    requires
        has_edges(b, from, dependencies),
        after.requirements == b.requirements,
        after.sources == b.sources,
    ensures
        has_edges(after, from, dependencies),
{
    assert forall|i: int| 0 <= i < dependencies.len() implies has_edge(
        after,
        from,
        #[trigger] dependencies[i],
    ) by {
        assert(has_edge(b, from, dependencies[i]));
    }
}

/// Records that edges keep.
proof fn lemma_kept_records(
    b: BuilderView,
    now: BuilderView,
    after: BuilderView,
    from: Option<Name>,
    dependencies: Seq<DependencyView>,
)
    requires
        has_edges(b, from, dependencies),
        now.requirements == b.requirements,
        now.sources == b.sources,
        forall|from: Option<Name>, d: DependencyView| #[trigger]
            has_edge(now, from, d) ==> has_edge(after, from, d),
    ensures
        has_edges(after, from, dependencies),
{
    lemma_same_records(b, now, from, dependencies);
    assert forall|i: int| 0 <= i < dependencies.len() implies has_edge(
        after,
        from,
        #[trigger] dependencies[i],
    ) by {
        assert(has_edge(now, from, dependencies[i]));
    }
}

/// When nothing is due, the graph meets every dependency of the root manifest and of every package
/// in it, and has every package that is depended on.
pub proof fn law_complete_resolution_meets_every_dependency(
    b: BuilderView,
    root: Seq<DependencyView>,
    manifests: Map<Name, ManifestView>,
)
    requires
        is_justified(b, root, manifests),
        crate::model::none_due(b),
    ensures
        meets_every_dependency(b.nodes, root, manifests),
        crate::cycles::is_closed(b.nodes),
        forall|n: Name| #[trigger] b.requirements.contains_key(n) <==> b.nodes.contains_key(n),
{
    assert forall|n: Name| #[trigger] b.requirements.contains_key(
        n,
    ) implies !crate::model::needs_visit(b, n) by {
        if crate::model::needs_visit(b, n) {
            let j = b.worklist.index_of(n);
            assert(!crate::model::is_due(b, b.worklist[j]));
        }
    }
    assert forall|i: int| 0 <= i < root.len() implies is_met(b.nodes, #[trigger] root[i]) by {
        lemma_recorded_is_met(b, root, manifests, None, root[i]);
    }
    assert forall|n: Name, i: int|
        b.nodes.contains_key(n) && 0 <= i < manifests[n].dependencies.len() implies is_met(
        b.nodes,
        #[trigger] manifests[n].dependencies[i],
    ) by {
        assert(is_walked(b, n, manifests[n]));
        lemma_recorded_is_met(b, root, manifests, Some(n), manifests[n].dependencies[i]);
    }
    assert forall|a: Name, d: Name| #[trigger]
        crate::graph::depends(b.nodes, a, d) implies b.nodes.contains_key(d) by {
        assert(is_walked(b, a, manifests[a]));
        let i = manifests[a].dependency_names().index_of(d);
        assert(is_met(b.nodes, manifests[a].dependencies[i]));
        assert(manifests[a].dependencies[i].package == d);
    }
}

proof fn lemma_recorded_is_met(
    b: BuilderView,
    root: Seq<DependencyView>,
    manifests: Map<Name, ManifestView>,
    from: Option<Name>,
    d: DependencyView,
)
    requires
        is_justified(b, root, manifests),
        has_edge(b, from, d),
        forall|n: Name| #[trigger]
            b.requirements.contains_key(n) ==> !crate::model::needs_visit(b, n),
    ensures
        is_met(b.nodes, d),
{
    let edges = b.requirements[d.package];
    let k = edges.index_of(EdgeView { from, req: crate::model::requirement_of(d) });
    assert(crate::model::edge_reqs(edges)[k] == crate::model::requirement_of(d));
    assert(b.requirements.contains_key(d.package));
    assert(b.nodes.contains_key(d.package));
    assert(is_walked(b, d.package, manifests[d.package]));
}

/// A resolution that runs from the dependencies of the root manifest until nothing is due ends in a
/// graph that meets every dependency of the root manifest and of every package in it.
pub proof fn law_resolution_meets_every_dependency(
    base_path: Seq<Seq<char>>,
    root_package_type: Option<PackageType>,
    lockfile: Option<Seq<LockedView>>,
    network_mode: NetworkMode,
    root: Seq<DependencyView>,
    states: Seq<BuilderView>,
    choices: Seq<Choice>,
)
    requires
        crate::model::no_conflict(
            crate::model::initial(base_path, root_package_type, lockfile, network_mode),
            None,
            root,
        ),
        is_resolution(states, choices),
        states[0] == crate::model::with_edges(
            crate::model::initial(base_path, root_package_type, lockfile, network_mode),
            None,
            root,
        ),
        crate::model::none_due(states.last()),
    ensures
        meets_every_dependency(
            states.last().nodes,
            root,
            manifests_after(states, choices, choices.len() as int),
        ),
        crate::cycles::is_closed(states.last().nodes),
{
    law_beginning_is_justified(base_path, root_package_type, lockfile, network_mode, root);
    lemma_resolution_is_justified(root, states, choices, choices.len() as int);
    law_complete_resolution_meets_every_dependency(
        states.last(),
        root,
        manifests_after(states, choices, choices.len() as int),
    );
}

proof fn lemma_resolution_is_justified(
    root: Seq<DependencyView>,
    states: Seq<BuilderView>,
    choices: Seq<Choice>,
    i: int,
)
    requires
        is_resolution(states, choices),
        is_justified(states[0], root, Map::empty()),
        0 <= i < states.len(),
    ensures
        is_justified(states[i], root, manifests_after(states, choices, i)),
    decreases i,
{
    if i > 0 {
        lemma_resolution_is_justified(root, states, choices, i - 1);
        let c = choices[i - 1];
        law_steps_keep_justified(
            states[i - 1],
            root,
            manifests_after(states, choices, i - 1),
            c.k,
            c.node,
            c.manifest,
        );
    }
}

/// Whether every requirement comes from the root manifest, or from a package that is resolved and
/// depends on the package it is on.
pub open spec fn all_asked_for(b: BuilderView) -> bool {
    forall|n: Name, j: int|
        b.requirements.contains_key(n) && 0 <= j < b.requirements[n].len()
            ==> crate::model::is_live(b, n, #[trigger] b.requirements[n][j])
}

/// Edges from the root manifest, or from a package that depends on what they are on, are asked for.
proof fn lemma_edges_are_asked_for(
    b: BuilderView,
    parent: Option<Name>,
    dependencies: Seq<DependencyView>,
)
    requires
        all_asked_for(b),
        forall|i: int|
            0 <= i < dependencies.len() ==> (parent matches Some(p) ==> crate::graph::depends(
                b.nodes,
                p,
                (#[trigger] dependencies[i]).package,
            )),
    ensures
        all_asked_for(crate::model::with_edges(b, parent, dependencies)),
    decreases dependencies.len(),
{
    if dependencies.len() > 0 {
        let rest = dependencies.drop_last();
        let last = dependencies[dependencies.len() - 1];
        assert forall|i: int| 0 <= i < rest.len() implies (parent matches Some(p)
            ==> crate::graph::depends(b.nodes, p, (#[trigger] rest[i]).package)) by {
            assert(rest[i] == dependencies[i]);
        }
        lemma_edges_are_asked_for(b, parent, rest);
        crate::laws::lemma_edges_keep_the_rest(b, parent, rest);
        let mid = crate::model::with_edges(b, parent, rest);
        let after = crate::model::with_edges(b, parent, dependencies);
        assert forall|n: Name, j: int|
            after.requirements.contains_key(n) && 0 <= j
                < after.requirements[n].len() implies crate::model::is_live(
            after,
            n,
            #[trigger] after.requirements[n][j],
        ) by {
            if n != last.package {
                assert(crate::model::is_live(mid, n, mid.requirements[n][j]));
            } else {
                let edges = crate::model::edges_of(mid, n);
                if j < edges.len() {
                    assert(crate::model::is_live(mid, n, mid.requirements[n][j]));
                }
            }
        }
    }
}

/// A resolution begins with requirements of the root manifest alone.
pub proof fn law_beginning_is_asked_for(
    base_path: Seq<Seq<char>>,
    root_package_type: Option<PackageType>,
    lockfile: Option<Seq<LockedView>>,
    network_mode: NetworkMode,
    root: Seq<DependencyView>,
)
    ensures
        all_asked_for(
            crate::model::with_edges(
                crate::model::initial(base_path, root_package_type, lockfile, network_mode),
                None,
                root,
            ),
        ),
{
    lemma_edges_are_asked_for(
        crate::model::initial(base_path, root_package_type, lockfile, network_mode),
        None,
        root,
    );
}

/// Where every package that a requirement comes from is resolved, every step keeps it so, unless a
/// package makes way that is required by itself, or by a package that goes with its last pick.
pub proof fn law_steps_keep_all_asked_for(
    b: BuilderView,
    k: int,
    node: NodeView,
    manifest: ManifestView,
)
    requires
        all_asked_for(b),
        is_step(b, k, node, manifest),
        b.nodes.contains_key(b.worklist[k]) ==> forall|j: int|
            0 <= j < b.requirements[b.worklist[k]].len() ==> !crate::model::is_retracted(
                crate::model::popped(b, k + 1),
                b.worklist[k],
                #[trigger] b.requirements[b.worklist[k]][j],
            ),
    ensures
        all_asked_for(stepped(b, k, node, manifest)),
{
    let name = b.worklist[k];
    let popped = crate::model::popped(b, k + 1);
    let way = crate::model::made_way(popped, name);
    let now = entered(b, k, node);
    assert forall|n: Name, j: int|
        now.requirements.contains_key(n) && 0 <= j
            < now.requirements[n].len() implies crate::model::is_live(
        now,
        n,
        #[trigger] now.requirements[n][j],
    ) by {
        let edge = way.requirements[n][j];
        let edges = b.requirements[n];
        assert(popped.requirements[n] == edges);
        if b.nodes.contains_key(name) {
            if n != name {
                crate::lists::lemma_filter_contents(
                    edges,
                    |e: EdgeView| !crate::model::is_retracted(popped, name, e),
                );
            }
            assert(!crate::model::is_retracted(popped, name, edge));
        }
        assert(edges.contains(edge));
        let i = edges.index_of(edge);
        assert(crate::model::is_live(b, n, edges[i]));
    }
    assert forall|i: int| 0 <= i < manifest.dependencies.len() implies crate::graph::depends(
        now.nodes,
        name,
        (#[trigger] manifest.dependencies[i]).package,
    ) by {
        assert(manifest.dependency_names()[i] == manifest.dependencies[i].package);
        assert(node.dependencies == manifest.dependency_names());
    }
    lemma_edges_are_asked_for(now, Some(name), manifest.dependencies);
    let last = crate::model::with_edges(now, Some(name), manifest.dependencies);
    let after = stepped(b, k, node, manifest);
    assert forall|n: Name, j: int|
        after.requirements.contains_key(n) && 0 <= j
            < after.requirements[n].len() implies crate::model::is_live(
        after,
        n,
        #[trigger] after.requirements[n][j],
    ) by {
        assert(crate::model::is_live(last, n, last.requirements[n][j]));
    }
}

/// Where every requirement is asked for, none is pruned.
pub proof fn law_nothing_to_prune(b: BuilderView, name: Name)
    requires
        all_asked_for(b),
        b.requirements.contains_key(name),
    ensures
        crate::model::pruned(b, name) == b,
{
    let edges = b.requirements[name];
    let live = |e: EdgeView| crate::model::is_live(b, name, e);
    assert forall|j: int| 0 <= j < edges.len() implies live(#[trigger] edges[j]) by {
        assert(crate::model::is_live(b, name, b.requirements[name][j]));
    }
    crate::lists::lemma_filter_all(edges, live);
    assert(crate::model::pruned(b, name).requirements =~= b.requirements);
}

} // verus!
