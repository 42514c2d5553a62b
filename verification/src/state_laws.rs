//! What each operation makes of the state of a resolution, said of its parts.
use crate::error::ErrorView;
use crate::graph::NodeView;
use crate::lockfile::LockedView;
use crate::manifest::{DependencyManifestView, DependencyView};
use crate::model::{BuilderView, EdgeView};
use crate::package::{Name, NetworkMode, PackageType};
use crate::version::VersionView;
use vstd::prelude::*;

verus! {

/// A resolution begins with nothing but its surroundings.
pub proof fn law_beginning_is_empty(
    base_path: Seq<Seq<char>>,
    root_package_type: Option<PackageType>,
    lockfile: Option<Seq<LockedView>>,
    network_mode: NetworkMode,
)
    ensures
        ({
            let b = crate::model::initial(base_path, root_package_type, lockfile, network_mode);
            &&& b.base_path == base_path
            &&& b.root_package_type == root_package_type
            &&& b.lockfile == lockfile
            &&& b.network_mode == network_mode
            &&& b.worklist.len() == 0
            &&& forall|n: Name|
                !(#[trigger] b.nodes.contains_key(n)) && !b.requirements.contains_key(n)
                    && !b.sources.contains_key(n)
        }),
{
}

/// An edge adds one requirement on the package, behind those that are there: that of a remote
/// dependency is the one its manifest states, that of a local one is a star. The requirements on
/// other packages stay.
pub proof fn law_edge_records_what_is_required(
    b: BuilderView,
    parent: Option<Name>,
    d: DependencyView,
)
    ensures
        ({
            let after = crate::model::with_edge(b, parent, d);
            let n = d.package;
            let before = if b.requirements.contains_key(n) {
                b.requirements[n].len()
            } else {
                0
            };
            &&& after.requirements.contains_key(n)
            &&& after.requirements[n].len() == before + 1
            &&& after.requirements[n].last().from == parent
            &&& after.requirements[n].last().req == match d.manifest {
                DependencyManifestView::Remote { registry, repository, version } => version,
                DependencyManifestView::Local { path } => seq!['*'],
            }
            &&& forall|j: int|
                0 <= j < before ==> after.requirements[n][j] == #[trigger] b.requirements[n][j]
            &&& forall|m: Name|
                m != n ==> (#[trigger] after.requirements.contains_key(m)
                    == b.requirements.contains_key(m)) && after.requirements[m]
                    == b.requirements[m]
        }),
{
}

/// An edge records where a package is to be had if it was not seen before, and leaves the sources
/// of all others as they are. A path is relative to the directory that the state is at.
pub proof fn law_edge_records_where_a_package_is(
    b: BuilderView,
    parent: Option<Name>,
    d: DependencyView,
)
    ensures
        ({
            let after = crate::model::with_edge(b, parent, d);
            let n = d.package;
            &&& after.sources.contains_key(n)
            &&& b.sources.contains_key(n) ==> after.sources[n] == b.sources[n]
            &&& !b.sources.contains_key(n) ==> match d.manifest {
                DependencyManifestView::Local { path } => after.sources[n] is Local
                    && after.sources[n]->path.len() == b.base_path.len() + 1
                    && after.sources[n]->path.last() == path && forall|j: int|
                    0 <= j < b.base_path.len() ==> after.sources[n]->path[j]
                        == #[trigger] b.base_path[j],
                DependencyManifestView::Remote { registry, repository, version } => {
                    &&& after.sources[n] is Remote
                    &&& after.sources[n]->registry == registry
                    &&& after.sources[n]->repository == repository
                },
            }
            &&& forall|m: Name|
                m != n ==> (#[trigger] after.sources.contains_key(m) == b.sources.contains_key(m))
                    && after.sources[m] == b.sources[m]
        }),
{
}

/// An edge schedules its package, at the end of the worklist, if and only if it is not scheduled
/// and either not resolved, or resolved to a version that some requirement on it, the new one
/// included, does not admit. Nothing else changes.
pub proof fn law_edge_schedules_what_it_unsettles(
    b: BuilderView,
    parent: Option<Name>,
    d: DependencyView,
)
    ensures
        ({
            let after = crate::model::with_edge(b, parent, d);
            let n = d.package;
            let reqs = after.requirements[n];
            let unsettled = if b.nodes.contains_key(n) {
                b.nodes[n].resolved_version matches Some(v) && exists|j: int|
                    0 <= j < reqs.len() && !crate::version::matches_release(
                        (#[trigger] reqs[j]).req,
                        v.major,
                        v.minor,
                        v.patch,
                        v.pre,
                    )
            } else {
                true
            };
            &&& after.worklist == if unsettled && !b.worklist.contains(n) {
                b.worklist.push(n)
            } else {
                b.worklist
            }
            &&& after.nodes == b.nodes
            &&& after.base_path == b.base_path
            &&& after.root_package_type == b.root_package_type
            &&& after.lockfile == b.lockfile
            &&& after.network_mode == b.network_mode
        }),
{
    let mid = crate::model::with_requirement(b, parent, d);
    let n = d.package;
    let edges = mid.requirements[n];
    let reqs = crate::model::edge_reqs(edges);
    if b.nodes.contains_key(n) && b.nodes[n].resolved_version is Some {
        let v = b.nodes[n].resolved_version->0;
        if !crate::pick::satisfies_all(reqs, v) {
            let j = choose|j: int|
                0 <= j < reqs.len() && !crate::version::satisfies(#[trigger] reqs[j], v);
            assert(reqs[j] == edges[j].req);
        } else {
            assert forall|j: int| 0 <= j < edges.len() implies crate::version::matches_release(
                (#[trigger] edges[j]).req,
                v.major,
                v.minor,
                v.patch,
                v.pre,
            ) by {
                assert(crate::version::satisfies(reqs[j], v));
            }
        }
    }
}

/// The edges of a list of dependencies are recorded one after the other.
pub proof fn law_edges_are_recorded_in_turn(
    b: BuilderView,
    parent: Option<Name>,
    dependencies: Seq<DependencyView>,
    d: DependencyView,
)
    ensures
        crate::model::with_edges(b, parent, seq![]) == b,
        crate::model::with_edges(b, parent, dependencies.push(d)) == crate::model::with_edge(
            crate::model::with_edges(b, parent, dependencies),
            parent,
            d,
        ),
{
    assert(dependencies.push(d).drop_last() =~= dependencies);
}

/// A dependency conflicts if and only if its package was seen as local and it is remote, or the
/// other way round.
pub proof fn law_conflict_is_between_local_and_remote(b: BuilderView, d: DependencyView)
    ensures
        crate::model::conflicts(b, d) <==> b.sources.contains_key(d.package) && (
        b.sources[d.package] is Local && d.manifest is Remote || b.sources[d.package] is Remote
            && d.manifest is Local),
{
}

/// The conflict that is reported is that of the first dependency that conflicts, once the edges of
/// those before it are recorded, and none is reported where there is none.
pub proof fn law_first_conflict_is_named(
    b: BuilderView,
    parent: Option<Name>,
    dependencies: Seq<DependencyView>,
    after: BuilderView,
    e: ErrorView,
)
    requires
        crate::model::conflict_reported(b, parent, dependencies, after, e),
    ensures
        exists|k: int|
            #![trigger dependencies[k]]
            {
                let there = crate::model::with_edges(b, parent, dependencies.take(k));
                let d = dependencies[k];
                &&& 0 <= k < dependencies.len()
                &&& there.sources.contains_key(d.package)
                &&& there.sources[d.package] is Local != d.manifest is Local
                &&& after == there
                &&& e is LocalRemoteConflict
                &&& e->LocalRemoteConflict_package == d.package
                &&& forall|j: int|
                    0 <= j < k ==> {
                        let before = crate::model::with_edges(
                            b,
                            parent,
                            #[trigger] dependencies.take(j),
                        );
                        !(before.sources.contains_key(dependencies[j].package)
                            && before.sources[dependencies[j].package] is Local
                            != dependencies[j].manifest is Local)
                    }
            },
        !crate::model::no_conflict(b, parent, dependencies),
{
    let k = choose|k: int| #[trigger]
        crate::model::first_conflict(b, parent, dependencies, k) && after
            == crate::model::with_edges(b, parent, dependencies.take(k)) && e == (
        ErrorView::LocalRemoteConflict { package: dependencies[k].package });
    let d = dependencies[k];
    assert(d == dependencies[k]);
    assert(crate::model::conflicts(
        crate::model::with_edges(b, parent, dependencies.take(k)),
        dependencies[k],
    ));
}

/// Dependencies are free of conflicts if and only if none of them is local where its package was
/// seen as remote, or the other way round, when its turn comes.
pub proof fn law_no_conflict_means_none_in_turn(
    b: BuilderView,
    parent: Option<Name>,
    dependencies: Seq<DependencyView>,
)
    ensures
        crate::model::no_conflict(b, parent, dependencies) <==> forall|j: int|
            0 <= j < dependencies.len() ==> {
                let before = crate::model::with_edges(b, parent, #[trigger] dependencies.take(j));
                !(before.sources.contains_key(dependencies[j].package)
                    && before.sources[dependencies[j].package] is Local
                    != dependencies[j].manifest is Local)
            },
{
    if forall|j: int|
        0 <= j < dependencies.len() ==> {
            let before = crate::model::with_edges(b, parent, #[trigger] dependencies.take(j));
            !(before.sources.contains_key(dependencies[j].package)
                && before.sources[dependencies[j].package] is Local
                != dependencies[j].manifest is Local)
        } {
        assert forall|j: int| 0 <= j < dependencies.len() implies !crate::model::conflicts(
            crate::model::with_edges(b, parent, #[trigger] dependencies.take(j)),
            dependencies[j],
        ) by {}
    }
}

/// A package is visited if and only if it is not resolved, or resolved to a version that some
/// requirement on it does not admit. A local package, which has no version, is visited once.
pub proof fn law_visit_is_needed_until_every_requirement_is_met(b: BuilderView, n: Name)
    requires
        b.requirements.contains_key(n),
    ensures
        crate::model::needs_visit(b, n) <==> if b.nodes.contains_key(n) {
            b.nodes[n].resolved_version matches Some(v) && exists|j: int|
                0 <= j < b.requirements[n].len() && !crate::version::matches_release(
                    (#[trigger] b.requirements[n][j]).req,
                    v.major,
                    v.minor,
                    v.patch,
                    v.pre,
                )
        } else {
            true
        },
        crate::model::is_due(b, n) == crate::model::needs_visit(b, n),
{
    let edges = b.requirements[n];
    let reqs = crate::model::edge_reqs(edges);
    if b.nodes.contains_key(n) && b.nodes[n].resolved_version is Some {
        let v = b.nodes[n].resolved_version->0;
        if !crate::pick::satisfies_all(reqs, v) {
            let j = choose|j: int|
                0 <= j < reqs.len() && !crate::version::satisfies(#[trigger] reqs[j], v);
            assert(reqs[j] == edges[j].req);
        } else {
            assert forall|j: int| 0 <= j < edges.len() implies crate::version::matches_release(
                (#[trigger] edges[j]).req,
                v.major,
                v.minor,
                v.patch,
                v.pre,
            ) by {
                assert(crate::version::satisfies(reqs[j], v));
            }
        }
    }
}

/// What is not required is not due, and is visited if it is not resolved, or resolved to a
/// version.
pub proof fn law_what_is_not_required_is_not_due(b: BuilderView, n: Name)
    requires
        !b.requirements.contains_key(n),
    ensures
        !crate::model::is_due(b, n),
        crate::model::needs_visit(b, n) <==> !b.nodes.contains_key(n)
            || b.nodes[n].resolved_version is Some,
{
}

/// The next package is the first in the worklist that is required and needs a visit; taking it off
/// the worklist, or putting it at the end, changes nothing else.
pub proof fn law_next_package_is_the_first_that_is_due(b: BuilderView, k: int, name: Name)
    requires
        0 <= k < b.worklist.len(),
    ensures
        crate::model::next_due(b, k) <==> b.requirements.contains_key(b.worklist[k])
            && crate::model::needs_visit(b, b.worklist[k]) && forall|j: int|
            0 <= j < k ==> !(b.requirements.contains_key(#[trigger] b.worklist[j])
                && crate::model::needs_visit(b, b.worklist[j])),
        crate::model::none_due(b) <==> forall|j: int|
            0 <= j < b.worklist.len() ==> !(b.requirements.contains_key(#[trigger] b.worklist[j])
                && crate::model::needs_visit(b, b.worklist[j])),
        forall|end: int| #[trigger]
            crate::model::has_due_before(b, end) <==> exists|j: int|
                0 <= j < end && b.requirements.contains_key(#[trigger] b.worklist[j])
                    && crate::model::needs_visit(b, b.worklist[j]),
        ({
            let after = crate::model::popped(b, k + 1);
            &&& after.worklist.len() == b.worklist.len() - k - 1
            &&& forall|j: int|
                0 <= j < after.worklist.len() ==> #[trigger] after.worklist[j] == b.worklist[k + 1
                    + j]
            &&& after == (BuilderView { worklist: after.worklist, ..b })
        }),
        ({
            let after = crate::model::put_off(b, name);
            &&& after.worklist == b.worklist.push(name)
            &&& after == (BuilderView { worklist: after.worklist, ..b })
        }),
{
    if crate::model::next_due(b, k) {
        assert forall|j: int| 0 <= j < k implies !(b.requirements.contains_key(
            #[trigger] b.worklist[j],
        ) && crate::model::needs_visit(b, b.worklist[j])) by {
            assert(!crate::model::is_due(b, b.worklist[j]));
        }
    }
    assert forall|end: int| #[trigger]
        crate::model::has_due_before(b, end) <==> exists|j: int|
            0 <= j < end && b.requirements.contains_key(#[trigger] b.worklist[j])
                && crate::model::needs_visit(b, b.worklist[j]) by {
        if crate::model::has_due_before(b, end) {
            let j = choose|j: int|
                0 <= j < end && crate::model::is_due(b, #[trigger] b.worklist[j]);
            assert(b.requirements.contains_key(b.worklist[j]));
        }
        if exists|j: int|
            0 <= j < end && b.requirements.contains_key(#[trigger] b.worklist[j])
                && crate::model::needs_visit(b, b.worklist[j]) {
            let j = choose|j: int|
                0 <= j < end && b.requirements.contains_key(#[trigger] b.worklist[j])
                    && crate::model::needs_visit(b, b.worklist[j]);
            assert(crate::model::is_due(b, b.worklist[j]));
        }
    }
}

/// Moving a part of the worklist behind the rest keeps the order of both, and changes nothing
/// else.
pub proof fn law_moving_behind_keeps_the_order(b: BuilderView, start: int, end: int)
    requires
        0 <= start <= end <= b.worklist.len(),
    ensures
        ({
            let after = crate::model::behind(b, start, end);
            let rest = b.worklist.len() - end;
            &&& after == (BuilderView { worklist: after.worklist, ..b })
            &&& after.worklist.len() == b.worklist.len()
            &&& forall|j: int|
                0 <= j < start ==> after.worklist[j] == #[trigger] b.worklist[j]
            &&& forall|j: int|
                end <= j < b.worklist.len() ==> after.worklist[j - end + start]
                    == #[trigger] b.worklist[j]
            &&& forall|j: int|
                start <= j < end ==> after.worklist[j + rest] == #[trigger] b.worklist[j]
        }),
{
}

/// The root manifest leads to a package if and only if some path begins with a package that the
/// root manifest requires, goes on from each package to another that it depends on and has a
/// requirement recorded on, and ends with the package; not on from the package that is left out.
pub proof fn law_reach_is_by_recorded_dependencies(
    b: BuilderView,
    without: Option<Name>,
    n: Name,
)
    ensures
        crate::model::is_reached(b, without, n) <==> exists|path: Seq<Name>|
            #![trigger path.last()]
            {
                &&& path.len() > 0
                &&& path.last() == n
                &&& b.requirements.contains_key(path[0])
                &&& exists|k: int|
                    0 <= k < b.requirements[path[0]].len() && (
                    #[trigger] b.requirements[path[0]][k]).from is None
                &&& forall|i: int|
                    0 <= i < path.len() - 1 ==> {
                        let a = #[trigger] path[i];
                        let to = path[i + 1];
                        &&& without != Some(a)
                        &&& a != to
                        &&& b.nodes.contains_key(a)
                        &&& b.nodes[a].dependencies.contains(to)
                        &&& b.requirements.contains_key(to)
                        &&& exists|k: int|
                            0 <= k < b.requirements[to].len() && (
                            #[trigger] b.requirements[to][k]).from == Some(a)
                    }
            },
{
    if crate::model::is_reached(b, without, n) {
        let path = choose|path: Seq<Name>| #[trigger]
            crate::model::is_chain(b, without, path) && path.last() == n;
        assert(crate::model::is_root(b, path[0]));
        assert forall|i: int| 0 <= i < path.len() - 1 implies {
            let a = #[trigger] path[i];
            let to = path[i + 1];
            &&& without != Some(a)
            &&& a != to
            &&& b.nodes.contains_key(a)
            &&& b.nodes[a].dependencies.contains(to)
            &&& b.requirements.contains_key(to)
            &&& exists|k: int|
                0 <= k < b.requirements[to].len() && (#[trigger] b.requirements[to][k]).from
                    == Some(a)
        } by {
            assert(crate::model::leads(b, path[i], path[i + 1]));
        }
    }
    if exists|path: Seq<Name>|
        #![trigger path.last()]
        {
            &&& path.len() > 0
            &&& path.last() == n
            &&& b.requirements.contains_key(path[0])
            &&& exists|k: int|
                0 <= k < b.requirements[path[0]].len() && (
                #[trigger] b.requirements[path[0]][k]).from is None
            &&& forall|i: int|
                0 <= i < path.len() - 1 ==> {
                    let a = #[trigger] path[i];
                    let to = path[i + 1];
                    &&& without != Some(a)
                    &&& a != to
                    &&& b.nodes.contains_key(a)
                    &&& b.nodes[a].dependencies.contains(to)
                    &&& b.requirements.contains_key(to)
                    &&& exists|k: int|
                        0 <= k < b.requirements[to].len() && (
                        #[trigger] b.requirements[to][k]).from == Some(a)
                }
        } {
        let path = choose|path: Seq<Name>|
            #![trigger path.last()]
            {
                &&& path.len() > 0
                &&& path.last() == n
                &&& b.requirements.contains_key(path[0])
                &&& exists|k: int|
                    0 <= k < b.requirements[path[0]].len() && (
                    #[trigger] b.requirements[path[0]][k]).from is None
                &&& forall|i: int|
                    0 <= i < path.len() - 1 ==> {
                        let a = #[trigger] path[i];
                        let to = path[i + 1];
                        &&& without != Some(a)
                        &&& a != to
                        &&& b.nodes.contains_key(a)
                        &&& b.nodes[a].dependencies.contains(to)
                        &&& b.requirements.contains_key(to)
                        &&& exists|k: int|
                            0 <= k < b.requirements[to].len() && (
                            #[trigger] b.requirements[to][k]).from == Some(a)
                    }
            };
        assert(crate::model::is_chain(b, without, path));
    }
}

/// A retraction drops exactly the required packages, other than the one whose contributions are
/// retracted, that the root manifest does not lead to without going on from that one: with their
/// nodes, sources and requirements. Of all others it keeps node and source as they are.
pub proof fn law_retraction_drops_what_is_out_of_reach(b: BuilderView, parent: Name, n: Name)
    ensures
        ({
            let after = crate::model::retracted(b, parent);
            let gone = b.requirements.contains_key(n) && n != parent && !crate::model::is_reached(
                b,
                Some(parent),
                n,
            );
            &&& after.nodes.contains_key(n) <==> b.nodes.contains_key(n) && !gone
            &&& after.sources.contains_key(n) <==> b.sources.contains_key(n) && !gone
            &&& after.requirements.contains_key(n) <==> b.requirements.contains_key(n) && !gone
            &&& after.nodes.contains_key(n) ==> after.nodes[n] == b.nodes[n]
            &&& after.sources.contains_key(n) ==> after.sources[n] == b.sources[n]
            &&& after == (BuilderView {
                nodes: after.nodes,
                sources: after.sources,
                requirements: after.requirements,
                ..b
            })
        }),
{
}

/// Of the requirements on a package that stays, a retraction takes back exactly those that come
/// from the package whose contributions are retracted, or from one that is dropped; on the former
/// itself it takes none back.
pub proof fn law_retraction_takes_back_what_was_contributed(
    b: BuilderView,
    parent: Name,
    n: Name,
    edge: EdgeView,
)
    requires
        crate::model::retracted(b, parent).requirements.contains_key(n),
    ensures
        n == parent ==> crate::model::retracted(b, parent).requirements[n] == b.requirements[n],
        n != parent ==> (crate::model::retracted(b, parent).requirements[n].contains(edge)
            <==> b.requirements[n].contains(edge) && match edge.from {
            None => true,
            Some(p) => p != parent && !(b.requirements.contains_key(p) && !crate::model::is_reached(
                b,
                Some(parent),
                p,
            )),
        }),
        n != parent ==> crate::model::retracted(b, parent).requirements[n]
            == b.requirements[n].filter(
            |e: EdgeView|
                match e.from {
                    None => true,
                    Some(p) => p != parent && !(b.requirements.contains_key(p)
                        && !crate::model::is_reached(b, Some(parent), p)),
                },
        ),
{
    let plain = |e: EdgeView|
        match e.from {
            None => true,
            Some(p) => p != parent && !(b.requirements.contains_key(p) && !crate::model::is_reached(
                b,
                Some(parent),
                p,
            )),
        };
    assert(plain =~= (|e: EdgeView| !crate::model::is_retracted(b, parent, e)));
    let keep = |e: EdgeView| !crate::model::is_retracted(b, parent, e);
    let edges = b.requirements[n];
    crate::lists::lemma_filter_contents(edges, keep);
    let left = crate::model::retracted(b, parent).requirements[n];
    if n != parent {
        if left.contains(edge) {
            let k = left.index_of(edge);
            assert(keep(left[k]));
        }
        if edges.contains(edge) && keep(edge) {
            let k = edges.index_of(edge);
            assert(keep(edges[k]));
        }
    }
}

/// A retraction makes a package due if and only if it stays, lost a requirement, and needs a
/// visit.
pub proof fn law_retraction_unsettles_what_lost_a_requirement(
    b: BuilderView,
    parent: Name,
    n: Name,
)
    ensures
        crate::model::is_unsettled(b, parent, n) <==> {
            let after = crate::model::retracted(b, parent);
            &&& after.requirements.contains_key(n)
            &&& after.requirements[n].len() < b.requirements[n].len()
            &&& crate::model::needs_visit(after, n)
        },
{
    crate::lists::lemma_filter_len(
        b.requirements[n],
        |e: EdgeView| !crate::model::is_retracted(b, parent, e),
    );
}

/// A package makes way by the retraction of what it contributed, if it is resolved, and at no cost
/// if it is not; there is nothing to do if it is resolved to the very version.
pub proof fn law_only_a_resolved_package_makes_way(b: BuilderView, n: Name, chosen: VersionView)
    ensures
        b.nodes.contains_key(n) ==> crate::model::made_way(b, n) == crate::model::retracted(b, n),
        !b.nodes.contains_key(n) ==> crate::model::made_way(b, n) == b,
        crate::model::is_resolved_to(b, n, chosen) <==> b.nodes.contains_key(n)
            && b.nodes[n].resolved_version is Some && {
            let v = b.nodes[n].resolved_version->0;
            &&& v.major == chosen.major
            &&& v.minor == chosen.minor
            &&& v.patch == chosen.patch
            &&& v.pre == chosen.pre
            &&& v.build == chosen.build
        },
{
}

/// An api package is refused if and only if some requirement on it comes from a lib package that
/// is resolved, or from a root package of type lib.
pub proof fn law_api_is_refused_to_libs_alone(
    b: BuilderView,
    n: Name,
    package_type: Option<PackageType>,
)
    requires
        b.requirements.contains_key(n),
    ensures
        crate::model::lib_depends_on_api(b, n, package_type) <==> package_type == Some(
            PackageType::Api,
        ) && exists|j: int|
            0 <= j < b.requirements[n].len() && match (#[trigger] b.requirements[n][j]).from {
                None => b.root_package_type == Some(PackageType::Lib),
                Some(p) => b.nodes.contains_key(p) && b.nodes[p].package_type == Some(
                    PackageType::Lib,
                ),
            },
{
    let edges = b.requirements[n];
    if crate::model::lib_depends_on_api(b, n, package_type) {
        let k = choose|k: int|
            0 <= k < crate::model::edges_of(b, n).len() && crate::model::parent_type(
                b,
                (#[trigger] crate::model::edges_of(b, n)[k]).from,
            ) == Some(PackageType::Lib);
        assert(edges[k] == crate::model::edges_of(b, n)[k]);
    }
    if package_type == Some(PackageType::Api) && exists|j: int|
        0 <= j < b.requirements[n].len() && match (#[trigger] b.requirements[n][j]).from {
            None => b.root_package_type == Some(PackageType::Lib),
            Some(p) => b.nodes.contains_key(p) && b.nodes[p].package_type == Some(
                PackageType::Lib,
            ),
        } {
        let j = choose|j: int|
            0 <= j < b.requirements[n].len() && match (#[trigger] b.requirements[n][j]).from {
                None => b.root_package_type == Some(PackageType::Lib),
                Some(p) => b.nodes.contains_key(p) && b.nodes[p].package_type == Some(
                    PackageType::Lib,
                ),
            };
        assert(crate::model::parent_type(b, crate::model::edges_of(b, n)[j].from) == Some(
            PackageType::Lib,
        ));
    }
}

/// What is not required is refused to nobody.
pub proof fn law_unrequired_package_is_not_refused(
    b: BuilderView,
    n: Name,
    package_type: Option<PackageType>,
)
    requires
        !b.requirements.contains_key(n),
    ensures
        !crate::model::lib_depends_on_api(b, n, package_type),
{
}

/// The error of an api package that is refused names the package, and the lib package that the
/// first such requirement comes from; a root package goes by the name `parent`.
pub proof fn law_refusal_names_the_first_lib(b: BuilderView, n: Name, e: ErrorView)
    requires
        crate::model::lib_edge_reported(b, n, e),
    ensures
        e is InvalidPackageTypeDependency,
        e->dependency == n,
        b.requirements.contains_key(n),
        exists|k: int|
            #![trigger b.requirements[n][k]]
            {
                &&& 0 <= k < b.requirements[n].len()
                &&& match b.requirements[n][k].from {
                    None => b.root_package_type == Some(PackageType::Lib) && e->parent
                        == seq!['p', 'a', 'r', 'e', 'n', 't'],
                    Some(p) => b.nodes.contains_key(p) && b.nodes[p].package_type == Some(
                        PackageType::Lib,
                    ) && e->parent == p,
                }
                &&& forall|j: int|
                    0 <= j < k ==> match (#[trigger] b.requirements[n][j]).from {
                        None => b.root_package_type != Some(PackageType::Lib),
                        Some(p) => b.nodes.contains_key(p) ==> b.nodes[p].package_type != Some(
                            PackageType::Lib,
                        ),
                    }
            },
{
    reveal_strlit("parent");
    assert("parent"@ =~= seq!['p', 'a', 'r', 'e', 'n', 't']);
    let k = choose|k: int| #[trigger]
        crate::model::first_lib_edge(b, n, k) && e == (ErrorView::InvalidPackageTypeDependency {
            parent: match crate::model::edges_of(b, n)[k].from {
                Some(parent) => parent,
                None => "parent"@,
            },
            dependency: n,
        });
    assert(b.requirements[n][k] == crate::model::edges_of(b, n)[k]);
    assert forall|j: int| 0 <= j < k implies match (#[trigger] b.requirements[n][j]).from {
        None => b.root_package_type != Some(PackageType::Lib),
        Some(p) => b.nodes.contains_key(p) ==> b.nodes[p].package_type != Some(PackageType::Lib),
    } by {
        assert(crate::model::parent_type(b, crate::model::edges_of(b, n)[j].from) != Some(
            PackageType::Lib,
        ));
    }
}

/// On a finished graph, an api package is refused to a parent if and only if the parent is a lib
/// package that lists it, or a root package of type lib that requires it. An error names just such
/// a pair.
pub proof fn law_refusal_on_the_graph_is_of_a_lib(b: BuilderView, e: ErrorView)
    requires
        crate::kinds::reports_api_of_lib(b, e),
    ensures
        e is InvalidPackageTypeDependency,
        b.nodes.contains_key(e->dependency),
        b.nodes[e->dependency].package_type == Some(PackageType::Api),
        ({
            ||| b.root_package_type == Some(PackageType::Lib) && e->parent == seq![
                'p',
                'a',
                'r',
                'e',
                'n',
                't',
            ] && b.requirements.contains_key(e->dependency) && exists|k: int|
                0 <= k < b.requirements[e->dependency].len() && (
                #[trigger] b.requirements[e->dependency][k]).from is None
            ||| b.nodes.contains_key(e->parent) && b.nodes[e->parent].package_type == Some(
                PackageType::Lib,
            ) && b.nodes[e->parent].dependencies.contains(e->dependency)
        }),
{
    reveal_strlit("parent");
    assert("parent"@ =~= seq!['p', 'a', 'r', 'e', 'n', 't']);
    let (parent, name) = choose|parent: Option<Name>, name: Name| #[trigger]
        crate::kinds::is_api_of_lib(b, parent, name) && e == (
        ErrorView::InvalidPackageTypeDependency {
            parent: match parent {
                Some(p) => p,
                None => "parent"@,
            },
            dependency: name,
        });
    assert(name == e->dependency);
}

/// Where no lib package lists an api package, and no root package of type lib requires one,
/// nothing is refused: an api package may depend on an api package.
pub proof fn law_graph_is_refused_only_for_a_lib(b: BuilderView)
    requires
        forall|n: Name, d: Name|
            #![trigger b.nodes[n], b.nodes[d]]
            b.nodes.contains_key(n) && b.nodes[n].package_type == Some(PackageType::Lib)
                && b.nodes.contains_key(d) && b.nodes[n].dependencies.contains(d)
                ==> b.nodes[d].package_type != Some(PackageType::Api),
        forall|d: Name|
            b.root_package_type == Some(PackageType::Lib) && b.nodes.contains_key(d)
                && b.requirements.contains_key(d) && (#[trigger] b.nodes[d]).package_type == Some(
                PackageType::Api,
            ) ==> forall|k: int|
                0 <= k < b.requirements[d].len() ==> (#[trigger] b.requirements[d][k]).from is Some,
    ensures
        forall|e: ErrorView| !crate::kinds::reports_api_of_lib(b, e),
{
    assert forall|e: ErrorView| !crate::kinds::reports_api_of_lib(b, e) by {
        if crate::kinds::reports_api_of_lib(b, e) {
            law_refusal_on_the_graph_is_of_a_lib(b, e);
            assert(b.nodes[e->dependency].package_type == Some(PackageType::Api));
            let at = b.nodes[e->parent];
        }
    }
}

/// A graph keeps libs off apis if and only if no lib package of it lists an api package of it, nor
/// does a root package of type lib.
pub proof fn law_libs_are_off_apis(
    nodes: Map<Name, NodeView>,
    root_package_type: Option<PackageType>,
    root: Seq<DependencyView>,
    n: Name,
    d: Name,
    i: int,
)
    requires
        crate::kinds::keeps_libs_off_apis(nodes, root_package_type, root),
    ensures
        nodes.contains_key(n) && nodes.contains_key(d) && nodes[n].dependencies.contains(d)
            && nodes[n].package_type == Some(PackageType::Lib) ==> nodes[d].package_type != Some(
            PackageType::Api,
        ),
        root_package_type == Some(PackageType::Lib) && 0 <= i < root.len() && nodes.contains_key(
            root[i].package,
        ) ==> nodes[root[i].package].package_type != Some(PackageType::Api),
{
    assert(crate::graph::depends(nodes, n, d) == (nodes.contains_key(n)
        && nodes[n].dependencies.contains(d)));
    if 0 <= i < root.len() {
        assert(crate::kinds::is_api(nodes, root[i].package) == (nodes.contains_key(root[i].package)
            && nodes[root[i].package].package_type == Some(PackageType::Api)));
    }
}

} // verus!
