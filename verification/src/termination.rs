//! How many steps a resolution takes at most, where the packages can be put in an order in which
//! each comes behind the packages that any version of it depends on, and where nothing is dropped
//! and no pick goes back.
use crate::graph::NodeView;
use crate::lockfile::LockedView;
use crate::manifest::{DependencyView, ManifestView};
use crate::model::{BuilderView, EdgeView};
use crate::package::{Name, NetworkMode, PackageType};
use crate::version::VersionView;
use vstd::prelude::*;

verus! {

/// Whether the package `a` comes before the package `b` in `order`.
pub open spec fn is_below(order: Seq<Name>, a: Name, b: Name) -> bool {
    order.contains(a) && order.contains(b) && order.index_of(a) < order.index_of(b)
}

/// Whether a package comes behind every package that a manifest of it depends on.
pub open spec fn descends(order: Seq<Name>, name: Name, manifest: ManifestView) -> bool {
    forall|i: int|
        0 <= i < manifest.dependencies.len() ==> is_below(
            order,
            (#[trigger] manifest.dependencies[i]).package,
            name,
        )
}

/// Whether an edge on the package `name` comes from the root manifest or from a package behind
/// `name`.
pub open spec fn comes_from_above(order: Seq<Name>, name: Name, edge: EdgeView) -> bool {
    edge.from matches Some(p) ==> is_below(order, name, p)
}

/// Whether every edge comes from the root manifest or from a package behind the one it is on.
pub open spec fn is_layered(order: Seq<Name>, b: BuilderView) -> bool {
    forall|n: Name| #[trigger]
        b.requirements.contains_key(n) ==> order.contains(n) && forall|k: int|
            0 <= k < b.requirements[n].len() ==> comes_from_above(
                order,
                n,
                #[trigger] b.requirements[n][k],
            )
}

/// The packages that are due, from position `i` of `order` on, read as a binary number whose least
/// significant digit is the package at `i`.
pub open spec fn visits_left(order: Seq<Name>, b: BuilderView, i: int) -> nat
    decreases order.len() - i,
{
    if i < 0 || i >= order.len() {
        0
    } else {
        2 * visits_left(order, b, i + 1) + (if crate::model::is_due(b, order[i]) {
            1nat
        } else {
            0nat
        })
    }
}

/// Whether the package at `k` in the worklist can be resolved to `node`, without a conflict and
/// within `order`.
pub open spec fn can_step(
    order: Seq<Name>,
    b: BuilderView,
    k: int,
    node: NodeView,
    manifest: ManifestView,
) -> bool {
    &&& crate::soundness::is_step(b, k, node, manifest)
    &&& descends(order, b.worklist[k], manifest)
    &&& crate::model::no_conflict(
        crate::soundness::entered(b, k, node),
        Some(b.worklist[k]),
        manifest.dependencies,
    )
}

/// Whether some step leads from `b` to `after`.
pub open spec fn leads_to(order: Seq<Name>, b: BuilderView, after: BuilderView) -> bool {
    exists|k: int, node: NodeView, manifest: ManifestView| #[trigger]
        can_step(order, b, k, node, manifest) && after == crate::soundness::stepped(
            b,
            k,
            node,
            manifest,
        )
}

/// Whether a step leads from each state to the next.
pub open spec fn is_run(order: Seq<Name>, states: Seq<BuilderView>) -> bool {
    forall|i: int|
        0 <= i < states.len() - 1 ==> leads_to(order, #[trigger] states[i], states[i + 1])
}

/// Along a chain the packages come ever earlier in the order.
proof fn lemma_chain_descends(order: Seq<Name>, b: BuilderView, path: Seq<Name>, i: int, j: int)
    requires
        is_layered(order, b),
        crate::model::is_chain(b, None, path),
        0 <= i < j < path.len(),
    ensures
        is_below(order, path[j], path[i]),
    decreases j - i,
{
    assert(crate::model::leads(b, path[j - 1], path[j - 1 + 1]));
    let edges = b.requirements[path[j]];
    let k = choose|k: int| 0 <= k < edges.len() && (#[trigger] edges[k]).from == Some(path[j - 1]);
    assert(comes_from_above(order, path[j], b.requirements[path[j]][k]));
    if i < j - 1 {
        lemma_chain_descends(order, b, path, i, j - 1);
    }
}

/// What is dropped comes before the package whose contributions are retracted.
proof fn lemma_dropped_is_below(
    order: Seq<Name>,
    b: BuilderView,
    root: Seq<DependencyView>,
    parent: Name,
    name: Name,
)
    requires
        is_layered(order, b),
        crate::soundness::is_reachable(b, root),
        crate::model::is_dropped(b, parent, name),
    ensures
        is_below(order, name, parent),
{
    reveal(crate::soundness::is_reachable);
    let path = choose|path: Seq<Name>| #[trigger]
        crate::model::is_chain(b, None, path) && path.last() == name;
    if forall|i: int| 0 <= i < path.len() - 1 ==> #[trigger] path[i] != parent {
        assert forall|i: int| 0 <= i < path.len() - 1 implies Some(parent) != Some(
            #[trigger] path[i],
        ) && crate::model::leads(b, path[i], path[i + 1]) by {
            assert(crate::model::leads(b, path[i], path[i + 1]));
        }
        assert(crate::model::is_chain(b, Some(parent), path));
    } else {
        let i = choose|i: int| 0 <= i < path.len() - 1 && #[trigger] path[i] == parent;
        lemma_chain_descends(order, b, path, i, path.len() - 1);
    }
}

/// A retraction leaves packages alone that do not come before the one whose contributions are
/// retracted.
proof fn lemma_retraction_goes_down(
    order: Seq<Name>,
    b: BuilderView,
    root: Seq<DependencyView>,
    parent: Name,
    name: Name,
)
    requires
        crate::model::is_consistent(b),
        is_layered(order, b),
        crate::soundness::is_reachable(b, root),
        !is_below(order, name, parent),
    ensures
        ({
            let after = crate::model::retracted(b, parent);
            &&& after.requirements.contains_key(name) == b.requirements.contains_key(name)
            &&& b.requirements.contains_key(name) ==> after.requirements[name]
                == b.requirements[name]
            &&& after.nodes.contains_key(name) == b.nodes.contains_key(name)
        }),
{
    if crate::model::is_dropped(b, parent, name) {
        lemma_dropped_is_below(order, b, root, parent, name);
    }
    if b.requirements.contains_key(name) {
        let edges = b.requirements[name];
        assert forall|k: int| 0 <= k < edges.len() implies !crate::model::is_retracted(
            b,
            parent,
            #[trigger] edges[k],
        ) by {
            assert(comes_from_above(order, name, b.requirements[name][k]));
            if crate::model::is_retracted(b, parent, edges[k]) && edges[k].from->0 != parent {
                lemma_dropped_is_below(order, b, root, parent, edges[k].from->0);
            }
        }
        crate::lists::lemma_filter_all(
            edges,
            |e: EdgeView| !crate::model::is_retracted(b, parent, e),
        );
    }
}

/// A retraction keeps edges within the order.
proof fn lemma_retraction_keeps_layers(order: Seq<Name>, b: BuilderView, parent: Name)
    requires
        is_layered(order, b),
    ensures
        is_layered(order, crate::model::retracted(b, parent)),
{
    let after = crate::model::retracted(b, parent);
    assert forall|n: Name| #[trigger] after.requirements.contains_key(n) implies order.contains(n)
        && forall|k: int|
        0 <= k < after.requirements[n].len() ==> comes_from_above(
            order,
            n,
            #[trigger] after.requirements[n][k],
        ) by {
        assert(b.requirements.contains_key(n));
        assert forall|k: int| 0 <= k < after.requirements[n].len() implies comes_from_above(
            order,
            n,
            #[trigger] after.requirements[n][k],
        ) by {
            if n != parent {
                crate::laws::law_retraction_leaves_no_trace(b, parent, n, k);
                let j = b.requirements[n].index_of(after.requirements[n][k]);
                assert(comes_from_above(order, n, b.requirements[n][j]));
            }
        }
    }
}

/// Edges on other packages leave the requirements on a package alone.
proof fn lemma_edges_elsewhere(
    b: BuilderView,
    parent: Option<Name>,
    dependencies: Seq<DependencyView>,
    name: Name,
)
    requires
        forall|i: int|
            0 <= i < dependencies.len() ==> (#[trigger] dependencies[i]).package != name,
    ensures
        ({
            let after = crate::model::with_edges(b, parent, dependencies);
            &&& after.requirements.contains_key(name) == b.requirements.contains_key(name)
            &&& b.requirements.contains_key(name) ==> after.requirements[name]
                == b.requirements[name]
        }),
    decreases dependencies.len(),
{
    if dependencies.len() > 0 {
        let rest = dependencies.drop_last();
        assert forall|i: int| 0 <= i < rest.len() implies (#[trigger] rest[i]).package != name by {
            assert(rest[i] == dependencies[i]);
        }
        assert(dependencies[dependencies.len() - 1].package != name);
        lemma_edges_elsewhere(b, parent, rest, name);
    }
}

/// The edges of a package that comes behind what it depends on are within the order, and so are
/// those of the root manifest.
pub proof fn lemma_edges_keep_layers(
    order: Seq<Name>,
    b: BuilderView,
    parent: Option<Name>,
    dependencies: Seq<DependencyView>,
)
    requires
        is_layered(order, b),
        forall|i: int|
            0 <= i < dependencies.len() ==> order.contains((#[trigger] dependencies[i]).package)
                && (parent matches Some(p) ==> is_below(order, dependencies[i].package, p)),
    ensures
        is_layered(order, crate::model::with_edges(b, parent, dependencies)),
    decreases dependencies.len(),
{
    if dependencies.len() > 0 {
        let rest = dependencies.drop_last();
        let last = dependencies.last();
        assert forall|i: int| 0 <= i < rest.len() implies order.contains(
            (#[trigger] rest[i]).package,
        ) && (parent matches Some(p) ==> is_below(order, rest[i].package, p)) by {
            assert(rest[i] == dependencies[i]);
        }
        lemma_edges_keep_layers(order, b, parent, rest);
        let mid = crate::model::with_edges(b, parent, rest);
        let after = crate::model::with_edges(b, parent, dependencies);
        assert(last == dependencies[dependencies.len() - 1]);
        assert(after.requirements == crate::model::with_requirement(
            mid,
            parent,
            last,
        ).requirements);
        assert forall|n: Name| #[trigger] after.requirements.contains_key(
            n,
        ) implies order.contains(n) && forall|k: int|
            0 <= k < after.requirements[n].len() ==> comes_from_above(
                order,
                n,
                #[trigger] after.requirements[n][k],
            ) by {
            if n == last.package {
                let old_edges = crate::model::edges_of(mid, n);
                assert forall|k: int| 0 <= k < after.requirements[n].len() implies comes_from_above(
                    order,
                    n,
                    #[trigger] after.requirements[n][k],
                ) by {
                    if k < old_edges.len() {
                        assert(mid.requirements.contains_key(n));
                        assert(comes_from_above(order, n, mid.requirements[n][k]));
                    }
                }
            } else {
                assert(mid.requirements.contains_key(n));
                assert forall|k: int| 0 <= k < after.requirements[n].len() implies comes_from_above(
                    order,
                    n,
                    #[trigger] after.requirements[n][k],
                ) by {
                    assert(comes_from_above(order, n, mid.requirements[n][k]));
                }
            }
        }
    }
}

/// Layers go by requirements alone.
pub proof fn lemma_same_layers(order: Seq<Name>, b: BuilderView, after: BuilderView)
    requires
        is_layered(order, b),
        after.requirements == b.requirements,
    ensures
        is_layered(order, after),
{
    assert forall|n: Name| #[trigger] after.requirements.contains_key(n) implies order.contains(n)
        && forall|k: int|
        0 <= k < after.requirements[n].len() ==> comes_from_above(
            order,
            n,
            #[trigger] after.requirements[n][k],
        ) by {
        assert(b.requirements.contains_key(n));
        assert forall|k: int| 0 <= k < after.requirements[n].len() implies comes_from_above(
            order,
            n,
            #[trigger] after.requirements[n][k],
        ) by {
            assert(comes_from_above(order, n, b.requirements[n][k]));
        }
    }
}

/// A resolution begins with edges within every order that holds the dependencies of the root
/// manifest.
pub proof fn law_beginning_is_layered(
    order: Seq<Name>,
    base_path: Seq<Seq<char>>,
    root_package_type: Option<PackageType>,
    lockfile: Option<Seq<LockedView>>,
    network_mode: NetworkMode,
    root: Seq<DependencyView>,
)
    requires
        forall|i: int| 0 <= i < root.len() ==> order.contains((#[trigger] root[i]).package),
    ensures
        is_layered(
            order,
            crate::model::with_edges(
                crate::model::initial(base_path, root_package_type, lockfile, network_mode),
                None,
                root,
            ),
        ),
{
    let b = crate::model::initial(base_path, root_package_type, lockfile, network_mode);
    lemma_edges_keep_layers(order, b, None, root);
}

/// Every step keeps edges within the order, and states consistent.
pub proof fn law_steps_keep_layers(
    order: Seq<Name>,
    b: BuilderView,
    k: int,
    node: NodeView,
    manifest: ManifestView,
)
    requires
        crate::model::is_consistent(b),
        is_layered(order, b),
        can_step(order, b, k, node, manifest),
    ensures
        crate::model::is_consistent(crate::soundness::stepped(b, k, node, manifest)),
        is_layered(order, crate::soundness::stepped(b, k, node, manifest)),
{
    let name = b.worklist[k];
    let popped = crate::model::popped(b, k + 1);
    let way = crate::model::made_way(popped, name);
    let now = crate::soundness::entered(b, k, node);
    let last = crate::model::with_edges(now, Some(name), manifest.dependencies);
    crate::laws::law_pops_keep_consistency(b, k + 1);
    lemma_same_layers(order, b, popped);
    crate::laws::law_retraction_keeps_consistency(popped, name);
    lemma_retraction_keeps_layers(order, popped, name);
    crate::laws::law_node_keeps_consistency(way, name, node);
    assert(crate::model::is_consistent(now));
    crate::laws::law_edges_keep_consistency(now, Some(name), manifest.dependencies);
    lemma_same_layers(order, way, now);
    lemma_edges_keep_layers(order, now, Some(name), manifest.dependencies);
    lemma_same_layers(order, last, crate::soundness::stepped(b, k, node, manifest));
}

/// What a step makes of the packages that do not come before the one it resolves: that one is no
/// longer due, and the others are as due as they were.
proof fn lemma_step_goes_down(
    order: Seq<Name>,
    b: BuilderView,
    k: int,
    node: NodeView,
    manifest: ManifestView,
    root: Seq<DependencyView>,
    name: Name,
)
    requires
        crate::model::is_consistent(b),
        crate::soundness::is_reachable(b, root),
        is_layered(order, b),
        can_step(order, b, k, node, manifest),
        !is_below(order, name, b.worklist[k]),
    ensures
        crate::model::is_due(crate::soundness::stepped(b, k, node, manifest), name) == (name
            != b.worklist[k] && crate::model::is_due(b, name)),
{
    let resolved = b.worklist[k];
    let popped = crate::model::popped(b, k + 1);
    let now = crate::soundness::entered(b, k, node);
    crate::laws::law_pops_keep_consistency(b, k + 1);
    lemma_same_layers(order, b, popped);
    crate::soundness::lemma_same_reach(b, popped, root);
    lemma_retraction_goes_down(order, popped, root, resolved, name);
    assert forall|i: int| 0 <= i < manifest.dependencies.len() implies (
    #[trigger] manifest.dependencies[i]).package != name by {
        assert(is_below(order, manifest.dependencies[i].package, resolved));
    }
    lemma_edges_elsewhere(now, Some(resolved), manifest.dependencies, name);
    crate::laws::lemma_edges_keep_the_rest(now, Some(resolved), manifest.dependencies);
}

proof fn lemma_equal_from(order: Seq<Name>, b: BuilderView, after: BuilderView, i: int)
    requires
        0 <= i,
        forall|j: int|
            i <= j < order.len() ==> crate::model::is_due(after, #[trigger] order[j])
                == crate::model::is_due(b, order[j]),
    ensures
        visits_left(order, after, i) == visits_left(order, b, i),
    decreases order.len() - i,
{
    if i < order.len() {
        lemma_equal_from(order, b, after, i + 1);
        assert(crate::model::is_due(after, order[i]) == crate::model::is_due(b, order[i]));
    }
}

proof fn lemma_less_from(order: Seq<Name>, b: BuilderView, after: BuilderView, i: int, r: int)
    requires
        0 <= i <= r < order.len(),
        crate::model::is_due(b, order[r]),
        !crate::model::is_due(after, order[r]),
        forall|j: int|
            r < j < order.len() ==> crate::model::is_due(after, #[trigger] order[j])
                == crate::model::is_due(b, order[j]),
    ensures
        visits_left(order, after, i) < visits_left(order, b, i),
    decreases r - i,
{
    if i == r {
        lemma_equal_from(order, b, after, r + 1);
    } else {
        lemma_less_from(order, b, after, i + 1, r);
    }
}

/// Every step leaves fewer visits.
pub proof fn law_steps_leave_fewer_visits(
    order: Seq<Name>,
    b: BuilderView,
    k: int,
    node: NodeView,
    manifest: ManifestView,
    root: Seq<DependencyView>,
)
    requires
        order.no_duplicates(),
        crate::model::is_consistent(b),
        crate::soundness::is_reachable(b, root),
        is_layered(order, b),
        can_step(order, b, k, node, manifest),
    ensures
        visits_left(order, crate::soundness::stepped(b, k, node, manifest), 0) < visits_left(
            order,
            b,
            0,
        ),
{
    let name = b.worklist[k];
    let after = crate::soundness::stepped(b, k, node, manifest);
    assert(b.requirements.contains_key(name));
    let r = order.index_of(name);
    assert(order[r] == name);
    lemma_step_goes_down(order, b, k, node, manifest, root, name);
    assert forall|j: int| r < j < order.len() implies crate::model::is_due(
        after,
        #[trigger] order[j],
    ) == crate::model::is_due(b, order[j]) by {
        assert(order.contains(order[j]));
        assert(order[order.index_of(order[j])] == order[j]);
        lemma_step_goes_down(order, b, k, node, manifest, root, order[j]);
    }
    lemma_less_from(order, b, after, 0, r);
}

/// A resolution within an order ends: there are no more steps than there are visits left at its
/// beginning.
pub proof fn law_ordered_resolution_ends(
    order: Seq<Name>,
    states: Seq<BuilderView>,
    root: Seq<DependencyView>,
    manifests: Map<Name, ManifestView>,
)
    requires
        order.no_duplicates(),
        states.len() > 0,
        crate::soundness::is_justified(states[0], root, manifests),
        is_layered(order, states[0]),
        is_run(order, states),
    ensures
        states.len() - 1 <= visits_left(order, states[0], 0),
{
    lemma_run_descends(order, states, root, manifests, states.len() - 1);
}

proof fn lemma_run_descends(
    order: Seq<Name>,
    states: Seq<BuilderView>,
    root: Seq<DependencyView>,
    manifests: Map<Name, ManifestView>,
    i: int,
) -> (known: Map<Name, ManifestView>)
    requires
        order.no_duplicates(),
        0 <= i < states.len(),
        crate::soundness::is_justified(states[0], root, manifests),
        is_layered(order, states[0]),
        is_run(order, states),
    ensures
        crate::soundness::is_justified(states[i], root, known),
        is_layered(order, states[i]),
        i + visits_left(order, states[i], 0) <= visits_left(order, states[0], 0),
    decreases i,
{
    if i > 0 {
        let known = lemma_run_descends(order, states, root, manifests, i - 1);
        let b = states[i - 1];
        assert(leads_to(order, b, states[i - 1 + 1]));
        let (k, node, manifest) = choose|k: int, node: NodeView, manifest: ManifestView| #[trigger]
            can_step(order, b, k, node, manifest) && states[i] == crate::soundness::stepped(
                b,
                k,
                node,
                manifest,
            );
        law_steps_keep_layers(order, b, k, node, manifest);
        law_steps_leave_fewer_visits(order, b, k, node, manifest, root);
        crate::soundness::law_steps_keep_justified(b, root, known, k, node, manifest);
        known.insert(b.worklist[k], manifest)
    } else {
        manifests
    }
}

/// Whether the package at `k` in the worklist can be resolved to `node`, nothing is dropped when it
/// makes way, and its pick moves on in the list of its versions if it had one.
pub open spec fn can_fall(
    names: Seq<Name>,
    versions: Map<Name, Seq<VersionView>>,
    b: BuilderView,
    k: int,
    node: NodeView,
    manifest: ManifestView,
) -> bool {
    let name = b.worklist[k];
    &&& crate::soundness::is_step(b, k, node, manifest)
    &&& names.contains(name)
    &&& forall|n: Name| #[trigger]
        b.nodes.contains_key(n) ==> crate::model::made_way(
            crate::model::popped(b, k + 1),
            name,
        ).nodes.contains_key(n)
    &&& node.resolved_version matches Some(v) ==> versions[name].contains(v)
    &&& b.nodes.contains_key(name) ==> {
        &&& b.nodes[name].resolved_version is Some
        &&& node.resolved_version is Some
        &&& versions[name].contains(b.nodes[name].resolved_version->0)
        &&& versions[name].index_of(b.nodes[name].resolved_version->0) < versions[name].index_of(
            node.resolved_version->0,
        )
    }
}

/// How many versions a package may still be resolved to.
pub open spec fn picks_left(versions: Map<Name, Seq<VersionView>>, b: BuilderView, name: Name) -> nat {
    if !b.nodes.contains_key(name) {
        versions[name].len() + 1
    } else {
        match b.nodes[name].resolved_version {
            None => 0,
            Some(v) => if versions[name].contains(v) {
                (versions[name].len() - versions[name].index_of(v)) as nat
            } else {
                0
            },
        }
    }
}

/// How many versions the first `i` packages may still be resolved to, taken together.
pub open spec fn all_picks_left(
    names: Seq<Name>,
    versions: Map<Name, Seq<VersionView>>,
    b: BuilderView,
    i: int,
) -> nat
    decreases i,
{
    if i <= 0 {
        0
    } else {
        all_picks_left(names, versions, b, i - 1) + picks_left(versions, b, names[i - 1])
    }
}

/// Whether each state follows from the one before by a step that drops nothing and moves its pick
/// on.
pub open spec fn is_falling_run(
    names: Seq<Name>,
    versions: Map<Name, Seq<VersionView>>,
    states: Seq<BuilderView>,
) -> bool {
    forall|i: int|
        0 <= i < states.len() - 1 ==> falls_to(
            names,
            versions,
            #[trigger] states[i],
            states[i + 1],
        )
}

/// Whether a step that drops nothing and moves its pick on leads from `b` to `after`.
pub open spec fn falls_to(
    names: Seq<Name>,
    versions: Map<Name, Seq<VersionView>>,
    b: BuilderView,
    after: BuilderView,
) -> bool {
    exists|k: int, node: NodeView, manifest: ManifestView| #[trigger]
        can_fall(names, versions, b, k, node, manifest) && after == crate::soundness::stepped(
            b,
            k,
            node,
            manifest,
        )
}

proof fn lemma_fall(
    names: Seq<Name>,
    versions: Map<Name, Seq<VersionView>>,
    b: BuilderView,
    k: int,
    node: NodeView,
    manifest: ManifestView,
    i: int,
)
    requires
        can_fall(names, versions, b, k, node, manifest),
        0 <= i <= names.len(),
    ensures
        ({
            let after = crate::soundness::stepped(b, k, node, manifest);
            let left = all_picks_left(names, versions, after, i);
            &&& left <= all_picks_left(names, versions, b, i)
            &&& names.take(i).contains(b.worklist[k]) ==> left < all_picks_left(
                names,
                versions,
                b,
                i,
            )
        }),
    decreases i,
{
    if i > 0 {
        lemma_fall(names, versions, b, k, node, manifest, i - 1);
        let name = b.worklist[k];
        let now = crate::soundness::entered(b, k, node);
        let n = names[i - 1];
        crate::laws::lemma_edges_keep_the_rest(now, Some(name), manifest.dependencies);
        let after = crate::soundness::stepped(b, k, node, manifest);
        if n != name {
            assert(b.nodes.contains_key(n) == after.nodes.contains_key(n));
            assert(picks_left(versions, after, n) == picks_left(versions, b, n));
        } else {
            assert(after.nodes[n] == node);
            assert(picks_left(versions, after, n) < picks_left(versions, b, n));
        }
        if names.take(i).contains(name) && n != name {
            let j = names.take(i).index_of(name);
            assert(names.take(i - 1)[j] == name);
        }
    }
}

/// A resolution in which no step drops a package and every step moves the pick of its package on in
/// the list of its versions, if the package had one, ends, also where packages depend on each other
/// in a circle: no package is walked more than once per version.
pub proof fn law_falling_resolution_ends(
    names: Seq<Name>,
    versions: Map<Name, Seq<VersionView>>,
    states: Seq<BuilderView>,
)
    requires
        states.len() > 0,
        is_falling_run(names, versions, states),
    ensures
        states.len() - 1 <= all_picks_left(names, versions, states[0], names.len() as int),
{
    lemma_falling_run(names, versions, states, states.len() - 1);
}

proof fn lemma_falling_run(
    names: Seq<Name>,
    versions: Map<Name, Seq<VersionView>>,
    states: Seq<BuilderView>,
    i: int,
)
    requires
        0 <= i < states.len(),
        is_falling_run(names, versions, states),
    ensures
        i + all_picks_left(names, versions, states[i], names.len() as int) <= all_picks_left(
            names,
            versions,
            states[0],
            names.len() as int,
        ),
    decreases i,
{
    if i > 0 {
        lemma_falling_run(names, versions, states, i - 1);
        let b = states[i - 1];
        assert(falls_to(names, versions, b, states[i - 1 + 1]));
        let (k, node, manifest) = choose|k: int, node: NodeView, manifest: ManifestView| #[trigger]
            can_fall(names, versions, b, k, node, manifest) && states[i]
                == crate::soundness::stepped(b, k, node, manifest);
        lemma_fall(names, versions, b, k, node, manifest, names.len() as int);
        assert(names.take(names.len() as int) =~= names);
    }
}

} // verus!
