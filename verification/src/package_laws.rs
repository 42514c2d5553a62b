//! How a package is looked up, chosen and recorded, said of its parts.
use crate::error::ErrorView;
use crate::graph::{NodeView, SourceView};
use crate::lockfile::LockedView;
use crate::manifest::{DependencyManifestView, DependencyView, ManifestView};
use crate::model::{BuilderView, EdgeView, PlanView};
use crate::package::Name;
use crate::version::VersionView;
use vstd::prelude::*;

verus! {

/// The choice among versions is one of them, is admitted by every requirement, and no version that
/// every requirement admits has greater numbers, or is the release that it is a prerelease of.
pub proof fn law_pick_is_the_highest_that_is_admitted(
    versions: Seq<VersionView>,
    reqs: Seq<Seq<char>>,
    v: VersionView,
    w: VersionView,
)
    requires
        crate::pick::is_pick(versions, reqs, Some(v)),
        versions.contains(w),
        forall|i: int|
            0 <= i < reqs.len() ==> crate::version::matches_release(
                #[trigger] reqs[i],
                w.major,
                w.minor,
                w.patch,
                w.pre,
            ),
    ensures
        versions.contains(v),
        forall|i: int|
            0 <= i < reqs.len() ==> crate::version::matches_release(
                #[trigger] reqs[i],
                v.major,
                v.minor,
                v.patch,
                v.pre,
            ),
        w == v || crate::version::precedes(w, v),
        w.major <= v.major,
        w.major == v.major ==> w.minor <= v.minor,
        w.major == v.major && w.minor == v.minor ==> w.patch <= v.patch,
        w.major == v.major && w.minor == v.minor && w.patch == v.patch && w.pre.len() == 0
            ==> v.pre.len() == 0,
{
    assert forall|i: int| 0 <= i < reqs.len() implies crate::version::satisfies(
        #[trigger] reqs[i],
        w,
    ) by {}
    assert forall|i: int| 0 <= i < reqs.len() implies crate::version::matches_release(
        #[trigger] reqs[i],
        v.major,
        v.minor,
        v.patch,
        v.pre,
    ) by {
        assert(crate::version::satisfies(reqs[i], v));
    }
}

/// There is a choice if and only if every requirement admits one of the versions.
pub proof fn law_pick_is_made_where_it_can_be(versions: Seq<VersionView>, reqs: Seq<Seq<char>>)
    ensures
        crate::pick::is_pick(versions, reqs, None) <==> forall|w: VersionView| #[trigger]
            versions.contains(w) ==> exists|i: int|
                0 <= i < reqs.len() && !crate::version::matches_release(
                    #[trigger] reqs[i],
                    w.major,
                    w.minor,
                    w.patch,
                    w.pre,
                ),
{
    assert forall|w: VersionView| #[trigger] versions.contains(w) implies (
    !crate::pick::satisfies_all(reqs, w) <==> exists|i: int|
        0 <= i < reqs.len() && !crate::version::matches_release(
            #[trigger] reqs[i],
            w.major,
            w.minor,
            w.patch,
            w.pre,
        )) by {
        if !crate::pick::satisfies_all(reqs, w) {
            let i = choose|i: int|
                0 <= i < reqs.len() && !crate::version::satisfies(#[trigger] reqs[i], w);
            assert(!crate::version::satisfies(reqs[i], w));
        } else {
            assert forall|i: int| 0 <= i < reqs.len() implies crate::version::matches_release(
                #[trigger] reqs[i],
                w.major,
                w.minor,
                w.patch,
                w.pre,
            ) by {
                assert(crate::version::satisfies(reqs[i], w));
            }
        }
    }
}

/// The pin to use is of the package, is admitted by every requirement, and no such pin has greater
/// numbers, or is of the release that it is a prerelease of; of pins of one version it is the
/// first.
pub proof fn law_pin_is_the_highest_that_is_admitted(
    pins: Seq<LockedView>,
    name: Name,
    reqs: Seq<Seq<char>>,
    i: int,
    j: int,
)
    requires
        crate::lockfile::is_pin(pins, name, reqs, i),
        0 <= j < pins.len(),
        pins[j].name == name,
        forall|k: int|
            0 <= k < reqs.len() ==> crate::version::matches_release(
                #[trigger] reqs[k],
                pins[j].version.major,
                pins[j].version.minor,
                pins[j].version.patch,
                pins[j].version.pre,
            ),
    ensures
        0 <= i < pins.len(),
        pins[i].name == name,
        forall|k: int|
            0 <= k < reqs.len() ==> crate::version::matches_release(
                #[trigger] reqs[k],
                pins[i].version.major,
                pins[i].version.minor,
                pins[i].version.patch,
                pins[i].version.pre,
            ),
        ({
            let v = pins[i].version;
            let w = pins[j].version;
            &&& w == v ==> i <= j
            &&& w.major <= v.major
            &&& w.major == v.major ==> w.minor <= v.minor
            &&& w.major == v.major && w.minor == v.minor ==> w.patch <= v.patch
            &&& w.major == v.major && w.minor == v.minor && w.patch == v.patch && w.pre.len() == 0
                ==> v.pre.len() == 0
        }),
{
    let v = pins[i].version;
    let w = pins[j].version;
    assert forall|k: int| 0 <= k < reqs.len() implies crate::version::satisfies(
        #[trigger] reqs[k],
        w,
    ) by {}
    assert(crate::lockfile::pin_fits(pins, name, reqs, j));
    assert forall|k: int| 0 <= k < reqs.len() implies crate::version::matches_release(
        #[trigger] reqs[k],
        v.major,
        v.minor,
        v.patch,
        v.pre,
    ) by {
        assert(crate::version::satisfies(reqs[k], v));
    }
}

/// No pin is used if and only if none of the package is admitted by every requirement.
pub proof fn law_no_pin_fits(pins: Seq<LockedView>, name: Name, reqs: Seq<Seq<char>>, i: int)
    ensures
        crate::lockfile::pin_fits(pins, name, reqs, i) <==> 0 <= i < pins.len() && pins[i].name
            == name && forall|k: int|
            0 <= k < reqs.len() ==> crate::version::matches_release(
                #[trigger] reqs[k],
                pins[i].version.major,
                pins[i].version.minor,
                pins[i].version.patch,
                pins[i].version.pre,
            ),
{
    if 0 <= i < pins.len() {
        let v = pins[i].version;
        if crate::pick::satisfies_all(reqs, v) {
            assert forall|k: int| 0 <= k < reqs.len() implies crate::version::matches_release(
                #[trigger] reqs[k],
                v.major,
                v.minor,
                v.patch,
                v.pre,
            ) by {
                assert(crate::version::satisfies(reqs[k], v));
            }
        } else {
            let k = choose|k: int|
                0 <= k < reqs.len() && !crate::version::satisfies(#[trigger] reqs[k], v);
            assert(!crate::version::satisfies(reqs[k], v));
        }
    }
}

/// Where the highest pin of a package that meets every requirement on it has an address that
/// begins with the registry, that pin is fetched, at its version and with its file, from the
/// registry and the repository of the package, whatever else the state holds.
pub proof fn law_pin_from_the_registry_is_fetched(
    b: BuilderView,
    pins: Seq<LockedView>,
    name: Name,
    registry: Seq<char>,
    repository: Seq<char>,
    plan: PlanView,
    i: int,
)
    requires
        b.lockfile == Some(pins),
        b.requirements.contains_key(name),
        0 <= i < pins.len(),
        pins[i].name == name,
        forall|k: int|
            0 <= k < b.requirements[name].len() ==> crate::version::matches_release(
                (#[trigger] b.requirements[name][k]).req,
                pins[i].version.major,
                pins[i].version.minor,
                pins[i].version.patch,
                pins[i].version.pre,
            ),
        forall|j: int|
            #![trigger pins[j]]
            0 <= j < pins.len() && pins[j].name == name && (forall|k: int|
                0 <= k < b.requirements[name].len() ==> crate::version::matches_release(
                    (#[trigger] b.requirements[name][k]).req,
                    pins[j].version.major,
                    pins[j].version.minor,
                    pins[j].version.patch,
                    pins[j].version.pre,
                )) ==> {
                let v = pins[i].version;
                let w = pins[j].version;
                if w == v {
                    i <= j
                } else {
                    crate::version::precedes(w, v) && !crate::version::precedes(v, w)
                }
            },
        registry.len() <= pins[i].file.url.len(),
        forall|c: int| 0 <= c < registry.len() ==> registry[c] == #[trigger] pins[i].file.url[c],
        crate::model::is_remote_plan(b, name, registry, repository, plan),
    ensures
        plan is Fetch,
        plan->Fetch_registry == registry,
        plan->Fetch_repository == repository,
        plan->version == pins[i].version,
        plan->file == pins[i].file,
{
    let edges = b.requirements[name];
    let reqs = crate::model::edge_reqs(crate::model::edges_of(b, name));
    assert forall|k: int| 0 <= k < reqs.len() implies crate::version::satisfies(
        #[trigger] reqs[k],
        pins[i].version,
    ) by {
        assert(reqs[k] == edges[k].req);
    }
    assert(crate::lockfile::pin_fits(pins, name, reqs, i));
    assert forall|j: int| #[trigger] crate::lockfile::pin_fits(pins, name, reqs, j) implies (
    forall|k: int|
        0 <= k < edges.len() ==> crate::version::matches_release(
            (#[trigger] edges[k]).req,
            pins[j].version.major,
            pins[j].version.minor,
            pins[j].version.patch,
            pins[j].version.pre,
        )) by {
        assert forall|k: int| 0 <= k < edges.len() implies crate::version::matches_release(
            (#[trigger] edges[k]).req,
            pins[j].version.major,
            pins[j].version.minor,
            pins[j].version.patch,
            pins[j].version.pre,
        ) by {
            assert(crate::version::satisfies(reqs[k], pins[j].version));
        }
    }
    assert(crate::lockfile::is_last_pin(pins, name, reqs, i));
    assert(registry =~= pins[i].file.url.subrange(0, registry.len() as int));
    assert(registry.is_prefix_of(pins[i].file.url));
    if plan is Fetch {
        let j = choose|j: int| #[trigger]
            crate::model::is_usable_pin(b, name, registry, j) && plan->version
                == b.lockfile->0[j].version && plan->file == b.lockfile->0[j].file;
        crate::lockfile::law_pin_is_unique(pins, name, reqs, i, j);
    }
    if plan is ListVersions {
        assert(crate::lockfile::is_last_pin(b.lockfile->0, name, reqs, i));
    }
}

/// What is fetched without asking the registry is a pin of the package that meets every
/// requirement on it, with an address that begins with the registry; no pin that does has greater
/// numbers, or is of the release that it is a prerelease of.
pub proof fn law_what_is_fetched_is_pinned(
    b: BuilderView,
    name: Name,
    registry: Seq<char>,
    repository: Seq<char>,
    plan: PlanView,
)
    requires
        b.requirements.contains_key(name),
        crate::model::is_remote_plan(b, name, registry, repository, plan),
        plan is Fetch,
    ensures
        b.lockfile is Some,
        plan->Fetch_registry == registry,
        plan->Fetch_repository == repository,
        exists|i: int|
            #![trigger b.lockfile->0[i]]
            {
                let pin = b.lockfile->0[i];
                &&& 0 <= i < b.lockfile->0.len()
                &&& pin.name == name
                &&& pin.version == plan->version
                &&& pin.file == plan->file
                &&& registry.len() <= pin.file.url.len()
                &&& forall|c: int|
                    0 <= c < registry.len() ==> #[trigger] registry[c] == pin.file.url[c]
            },
        forall|k: int|
            0 <= k < b.requirements[name].len() ==> crate::version::matches_release(
                (#[trigger] b.requirements[name][k]).req,
                plan->version.major,
                plan->version.minor,
                plan->version.patch,
                plan->version.pre,
            ),
        forall|j: int|
            #![trigger b.lockfile->0[j]]
            0 <= j < b.lockfile->0.len() && b.lockfile->0[j].name == name && (forall|k: int|
                0 <= k < b.requirements[name].len() ==> crate::version::matches_release(
                    (#[trigger] b.requirements[name][k]).req,
                    b.lockfile->0[j].version.major,
                    b.lockfile->0[j].version.minor,
                    b.lockfile->0[j].version.patch,
                    b.lockfile->0[j].version.pre,
                )) ==> {
                let v = plan->version;
                let w = b.lockfile->0[j].version;
                &&& w == v || crate::version::precedes(w, v)
                &&& w.major <= v.major
                &&& w.major == v.major ==> w.minor <= v.minor
                &&& w.major == v.major && w.minor == v.minor ==> w.patch <= v.patch
                &&& w.major == v.major && w.minor == v.minor && w.patch == v.patch && w.pre.len()
                    == 0 ==> v.pre.len() == 0
            },
{
    let i = choose|i: int| #[trigger]
        crate::model::is_usable_pin(b, name, registry, i) && plan->version
            == b.lockfile->0[i].version && plan->file == b.lockfile->0[i].file;
    let pins = b.lockfile->0;
    let pin = pins[i];
    let edges = b.requirements[name];
    let reqs = crate::model::edge_reqs(crate::model::edges_of(b, name));
    assert(crate::lockfile::pin_fits(pins, name, reqs, i));
    assert forall|c: int| 0 <= c < registry.len() implies #[trigger] registry[c]
        == pin.file.url[c] by {
        assert(registry == pin.file.url.subrange(0, registry.len() as int));
    }
    assert forall|k: int| 0 <= k < edges.len() implies crate::version::matches_release(
        (#[trigger] edges[k]).req,
        pin.version.major,
        pin.version.minor,
        pin.version.patch,
        pin.version.pre,
    ) by {
        assert(crate::version::satisfies(reqs[k], pin.version));
    }
    assert forall|j: int|
        #![trigger pins[j]]
        0 <= j < pins.len() && pins[j].name == name && (forall|k: int|
            0 <= k < edges.len() ==> crate::version::matches_release(
                (#[trigger] edges[k]).req,
                pins[j].version.major,
                pins[j].version.minor,
                pins[j].version.patch,
                pins[j].version.pre,
            )) implies crate::lockfile::pin_fits(pins, name, reqs, j) by {
        assert forall|k: int| 0 <= k < reqs.len() implies crate::version::satisfies(
            #[trigger] reqs[k],
            pins[j].version,
        ) by {
            assert(reqs[k] == edges[k].req);
        }
    }
}

/// A plan asks for the manifest of a local package at its source; for a remote one it names the
/// registry and the repository of its source.
pub proof fn law_plan_goes_to_the_source(b: BuilderView, name: Name, plan: PlanView)
    requires
        crate::model::is_plan(b, name, plan),
    ensures
        match b.sources[name] {
            SourceView::Local { path } => plan is ReadManifest && plan->path == path,
            SourceView::Remote { registry, repository } => {
                ||| plan is Fetch && plan->Fetch_registry == registry && plan->Fetch_repository
                    == repository
                ||| plan is ListVersions && plan->ListVersions_registry == registry
                    && plan->ListVersions_repository == repository
            },
        },
        plan is ReadManifest <==> b.sources[name] is Local,
        b.sources[name] matches SourceView::Remote { registry, repository }
            ==> crate::model::is_remote_plan(b, name, registry, repository, plan),
{
}

/// Without a lockfile the published versions of a remote package are asked for.
pub proof fn law_without_a_lockfile_versions_are_listed(b: BuilderView, name: Name, plan: PlanView)
    requires
        crate::model::is_plan(b, name, plan),
        b.sources[name] is Remote,
        b.lockfile is None,
    ensures
        plan is ListVersions,
{
}

/// What is downloaded is the package itself, from the registry and the repository under which it
/// was required, at the chosen version and no other.
pub proof fn law_download_is_of_the_chosen_version(
    name: Name,
    registry: Seq<char>,
    repository: Seq<char>,
    chosen: VersionView,
)
    ensures
        ({
            let d = crate::model::pinned_dependency(name, registry, repository, chosen);
            let version = d.manifest->version;
            &&& d.package == name
            &&& d.manifest is Remote
            &&& d.manifest->registry == registry
            &&& d.manifest->repository == repository
            &&& version.len() > 0
            &&& version[0] == '='
            &&& version.skip(1) == crate::text::decimal(chosen.major as nat) + seq!['.']
                + crate::text::decimal(chosen.minor as nat) + seq!['.'] + crate::text::decimal(
                chosen.patch as nat,
            ) + (if chosen.pre.len() > 0 {
                seq!['-'] + chosen.pre
            } else {
                seq![]
            })
        }),
{
    let d = crate::model::pinned_dependency(name, registry, repository, chosen);
    assert(d.manifest->version.skip(1) =~= crate::version::release_text(chosen));
}

/// The walk of a remote package records it at the chosen version, which its requirement pins, with
/// the type and the dependencies of its manifest, from its registry and repository, and changes no
/// other node.
pub proof fn law_remote_package_is_recorded(
    b: BuilderView,
    name: Name,
    registry: Seq<char>,
    repository: Seq<char>,
    chosen: VersionView,
    base: Seq<Seq<char>>,
    manifest: ManifestView,
    after: BuilderView,
)
    requires
        crate::model::is_walk_of(
            b,
            name,
            crate::model::remote_node(name, registry, repository, chosen, manifest),
            base,
            manifest,
            None,
            after,
        ),
    ensures
        after.nodes.contains_key(name),
        after.nodes[name].name == name,
        after.nodes[name].package_type == manifest.package_type,
        after.nodes[name].source == (SourceView::Remote { registry, repository }),
        after.nodes[name].resolved_version == Some(chosen),
        after.nodes[name].version.len() > 0,
        after.nodes[name].version[0] == '=',
        after.nodes[name].version.skip(1) == crate::text::decimal(chosen.major as nat) + seq!['.']
            + crate::text::decimal(chosen.minor as nat) + seq!['.'] + crate::text::decimal(
            chosen.patch as nat,
        ) + (if chosen.pre.len() > 0 {
            seq!['-'] + chosen.pre
        } else {
            seq![]
        }),
        after.nodes[name].dependencies.len() == manifest.dependencies.len(),
        forall|i: int|
            0 <= i < manifest.dependencies.len() ==> after.nodes[name].dependencies[i] == (
            #[trigger] manifest.dependencies[i]).package,
        forall|n: Name|
            n != name ==> (#[trigger] after.nodes.contains_key(n) == b.nodes.contains_key(n))
                && after.nodes[n] == b.nodes[n],
{
    let node = crate::model::remote_node(name, registry, repository, chosen, manifest);
    let entered = crate::model::at_path(crate::model::with_node(b, name, node), base);
    crate::laws::lemma_edges_keep_the_rest(entered, Some(name), manifest.dependencies);
    assert(node.version.skip(1) =~= crate::version::release_text(chosen));
}

/// The walk of a local package records it without a version, at its path, with the type and the
/// dependencies of its manifest, and changes no other node.
pub proof fn law_local_package_is_recorded(
    b: BuilderView,
    name: Name,
    path: Seq<Seq<char>>,
    base: Seq<Seq<char>>,
    manifest: ManifestView,
    after: BuilderView,
)
    requires
        crate::model::is_walk_of(
            b,
            name,
            crate::model::local_node(name, path, manifest),
            base,
            manifest,
            None,
            after,
        ),
    ensures
        after.nodes.contains_key(name),
        after.nodes[name].name == name,
        after.nodes[name].package_type == manifest.package_type,
        after.nodes[name].source == (SourceView::Local { path }),
        after.nodes[name].resolved_version is None,
        after.nodes[name].version == seq!['*'],
        after.nodes[name].dependencies.len() == manifest.dependencies.len(),
        forall|i: int|
            0 <= i < manifest.dependencies.len() ==> after.nodes[name].dependencies[i] == (
            #[trigger] manifest.dependencies[i]).package,
        forall|n: Name|
            n != name ==> (#[trigger] after.nodes.contains_key(n) == b.nodes.contains_key(n))
                && after.nodes[n] == b.nodes[n],
{
    let node = crate::model::local_node(name, path, manifest);
    let entered = crate::model::at_path(crate::model::with_node(b, name, node), base);
    crate::laws::lemma_edges_keep_the_rest(entered, Some(name), manifest.dependencies);
}

/// A walk records the requirement of every dependency in the manifest, as it is written there and
/// as coming from the package, keeps those that are recorded, and leaves the directory and
/// everything around as it was.
pub proof fn law_walk_records_every_dependency(
    b: BuilderView,
    name: Name,
    node: NodeView,
    base: Seq<Seq<char>>,
    manifest: ManifestView,
    after: BuilderView,
    i: int,
)
    requires
        crate::model::is_walk_of(b, name, node, base, manifest, None, after),
        0 <= i < manifest.dependencies.len(),
    ensures
        ({
            let d = manifest.dependencies[i];
            let req = match d.manifest {
                DependencyManifestView::Remote { registry, repository, version } => version,
                DependencyManifestView::Local { path } => seq!['*'],
            };
            &&& after.requirements.contains_key(d.package)
            &&& after.requirements[d.package].contains(EdgeView { from: Some(name), req })
        }),
        forall|n: Name|
            b.requirements.contains_key(n) ==> (#[trigger] after.requirements.contains_key(n))
                && b.requirements[n].len() <= after.requirements[n].len() && forall|k: int|
                0 <= k < b.requirements[n].len() ==> after.requirements[n][k]
                    == #[trigger] b.requirements[n][k],
        after.base_path == b.base_path,
        after.root_package_type == b.root_package_type,
        after.lockfile == b.lockfile,
        after.network_mode == b.network_mode,
{
    let entered = crate::model::at_path(crate::model::with_node(b, name, node), base);
    crate::laws::lemma_edges_keep_the_rest(entered, Some(name), manifest.dependencies);
    lemma_edge_of(entered, Some(name), manifest.dependencies, i);
    assert forall|n: Name| b.requirements.contains_key(n) implies (
    #[trigger] after.requirements.contains_key(n)) && b.requirements[n].len()
        <= after.requirements[n].len() && forall|k: int|
        0 <= k < b.requirements[n].len() ==> after.requirements[n][k]
            == #[trigger] b.requirements[n][k] by {
        crate::laws::law_edges_only_extend(entered, Some(name), manifest.dependencies, n);
        let edges = b.requirements[n];
        assert forall|k: int| 0 <= k < edges.len() implies after.requirements[n][k]
            == #[trigger] edges[k] by {
            assert(after.requirements[n].subrange(0, edges.len() as int)[k] == edges[k]);
        }
    }
}

/// The requirement of each dependency is there once all edges are recorded.
proof fn lemma_edge_of(
    b: BuilderView,
    parent: Option<Name>,
    dependencies: Seq<DependencyView>,
    i: int,
)
    requires
        0 <= i < dependencies.len(),
    ensures
        ({
            let after = crate::model::with_edges(b, parent, dependencies);
            let d = dependencies[i];
            let req = match d.manifest {
                DependencyManifestView::Remote { registry, repository, version } => version,
                DependencyManifestView::Local { path } => seq!['*'],
            };
            &&& after.requirements.contains_key(d.package)
            &&& after.requirements[d.package].contains(EdgeView { from: parent, req })
        }),
    decreases dependencies.len(),
{
    let rest = dependencies.drop_last();
    let last = dependencies[dependencies.len() - 1];
    let mid = crate::model::with_edges(b, parent, rest);
    let after = crate::model::with_edges(b, parent, dependencies);
    let d = dependencies[i];
    let req = match d.manifest {
        DependencyManifestView::Remote { registry, repository, version } => version,
        DependencyManifestView::Local { path } => seq!['*'],
    };
    let edge = EdgeView { from: parent, req };
    crate::state_laws::law_edge_records_what_is_required(mid, parent, last);
    let edges = after.requirements[d.package];
    if i < rest.len() {
        lemma_edge_of(b, parent, rest, i);
        assert(rest[i] == d);
        let k = mid.requirements[d.package].index_of(edge);
        assert(mid.requirements[d.package][k] == edge);
        assert(edges[k] == edge);
    } else {
        assert(edges[edges.len() - 1] == edge);
    }
}

/// A walk fails if and only if the package is an api package that is refused to a lib, in which
/// case nothing changes, or else a dependency conflicts, in which case the dependencies before the
/// first that does are recorded. However it ends, the directory is the same as before.
pub proof fn law_walk_fails_for_a_lib_or_a_conflict(
    b: BuilderView,
    name: Name,
    node: NodeView,
    base: Seq<Seq<char>>,
    manifest: ManifestView,
    error: Option<ErrorView>,
    after: BuilderView,
)
    requires
        crate::model::is_walk_of(b, name, node, base, manifest, error, after),
    ensures
        after.base_path == b.base_path,
        ({
            let dependencies = manifest.dependencies;
            let refused = crate::model::lib_depends_on_api(b, name, manifest.package_type);
            let entered = BuilderView {
                nodes: b.nodes.insert(name, node),
                base_path: base,
                ..b
            };
            let clear = crate::model::no_conflict(entered, Some(name), dependencies);
            &&& error is None <==> !refused && clear
            &&& refused ==> error is Some && crate::model::lib_edge_reported(b, name, error->0)
                && after == b
            &&& !refused && !clear ==> error is Some && error->0 is LocalRemoteConflict && exists|
                k: int,
            | #[trigger]
                crate::model::first_conflict(entered, Some(name), dependencies, k)
                    && error->0->LocalRemoteConflict_package == dependencies[k].package && after
                    == (BuilderView {
                    base_path: b.base_path,
                    ..crate::model::with_edges(entered, Some(name), dependencies.take(k))
                })
            &&& error is None ==> after == (BuilderView {
                base_path: b.base_path,
                ..crate::model::with_edges(entered, Some(name), dependencies)
            })
        }),
{
}

/// Where no published version meets every requirement, those that come from a package that is not
/// resolved, or does not depend on this one, do not count, unless no other is left; else all
/// count.
pub proof fn law_only_what_is_asked_for_counts_in_a_conflict(
    b: BuilderView,
    name: Name,
    versions: Seq<VersionView>,
)
    requires
        b.requirements.contains_key(name),
    ensures
        ({
            let after = crate::model::reconsidered(b, name, versions);
            let live = b.requirements[name].filter(
                |e: EdgeView|
                    match e.from {
                        None => true,
                        Some(p) => b.nodes.contains_key(p) && b.nodes[p].dependencies.contains(
                            name,
                        ),
                    },
            );
            let fits = exists|w: VersionView| #[trigger]
                versions.contains(w) && forall|j: int|
                    0 <= j < b.requirements[name].len() ==> crate::version::matches_release(
                        (#[trigger] b.requirements[name][j]).req,
                        w.major,
                        w.minor,
                        w.patch,
                        w.pre,
                    );
            &&& after == (BuilderView { requirements: after.requirements, ..b })
            &&& after.requirements.contains_key(name)
            &&& after.requirements[name] == if fits || live.len() == 0 {
                b.requirements[name]
            } else {
                live
            }
            &&& forall|n: Name|
                n != name ==> (#[trigger] after.requirements.contains_key(n)
                    == b.requirements.contains_key(n)) && after.requirements[n]
                    == b.requirements[n]
        }),
{
    let edges = b.requirements[name];
    let reqs = crate::model::edge_reqs(edges);
    let plain = |e: EdgeView|
        match e.from {
            None => true,
            Some(p) => b.nodes.contains_key(p) && b.nodes[p].dependencies.contains(name),
        };
    assert(plain =~= (|e: EdgeView| crate::model::is_live(b, name, e)));
    if crate::pick::is_pick(versions, reqs, None) {
        assert forall|w: VersionView| #[trigger] versions.contains(w) implies exists|j: int|
            0 <= j < edges.len() && !crate::version::matches_release(
                (#[trigger] edges[j]).req,
                w.major,
                w.minor,
                w.patch,
                w.pre,
            ) by {
            let j = choose|j: int|
                0 <= j < reqs.len() && !crate::version::satisfies(#[trigger] reqs[j], w);
            assert(reqs[j] == edges[j].req);
        }
    } else {
        let w = choose|w: VersionView| #[trigger]
            versions.contains(w) && crate::pick::satisfies_all(reqs, w);
        assert forall|j: int| 0 <= j < edges.len() implies crate::version::matches_release(
            (#[trigger] edges[j]).req,
            w.major,
            w.minor,
            w.patch,
            w.pre,
        ) by {
            assert(crate::version::satisfies(reqs[j], w));
        }
    }
}

/// A conflict names a required package and requirements that the root manifest, or packages that
/// are resolved and depend on it, ask for, of which every published version fails one.
pub proof fn law_conflict_is_of_what_is_asked_for(b: BuilderView, e: ErrorView)
    requires
        crate::model::is_conflict(b, e),
    ensures
        e is NoCompatibleVersion,
        b.requirements.contains_key(e->NoCompatibleVersion_package),
        forall|req: Seq<char>| #[trigger]
            e->NoCompatibleVersion_requirements.contains(req) ==> exists|j: int|
                0 <= j < b.requirements[e->NoCompatibleVersion_package].len() && {
                    let edge = #[trigger] b.requirements[e->NoCompatibleVersion_package][j];
                    edge.req == req && match edge.from {
                        None => true,
                        Some(q) => b.nodes.contains_key(q) && b.nodes[q].dependencies.contains(
                            e->NoCompatibleVersion_package,
                        ),
                    }
                },
        forall|w: VersionView| #[trigger]
            e->available_versions.contains(w) ==> exists|i: int|
                0 <= i < e->NoCompatibleVersion_requirements.len()
                    && !crate::version::matches_release(
                    #[trigger] e->NoCompatibleVersion_requirements[i],
                    w.major,
                    w.minor,
                    w.patch,
                    w.pre,
                ),
{
    let p = e->NoCompatibleVersion_package;
    let reqs = e->NoCompatibleVersion_requirements;
    law_pick_is_made_where_it_can_be(e->available_versions, reqs);
    assert forall|req: Seq<char>| #[trigger] reqs.contains(req) implies exists|j: int|
        0 <= j < b.requirements[p].len() && {
            let edge = #[trigger] b.requirements[p][j];
            edge.req == req && match edge.from {
                None => true,
                Some(q) => b.nodes.contains_key(q) && b.nodes[q].dependencies.contains(p),
            }
        } by {
        let i = reqs.index_of(req);
        assert(crate::model::is_still_asked(b, p, reqs[i]));
        let j = choose|j: int|
            0 <= j < b.requirements[p].len() && crate::model::is_live(
                b,
                p,
                #[trigger] b.requirements[p][j],
            ) && b.requirements[p][j].req == reqs[i];
        assert(b.requirements[p][j].req == req);
    }
}

/// Two states count as one if and only if they agree in their nodes, sources and worklists, and in
/// which requirements there are on each package.
pub proof fn law_states_are_told_apart(a: BuilderView, b: BuilderView)
    ensures
        crate::model::course_of(a) == crate::model::course_of(b) <==> a.nodes == b.nodes
            && a.sources == b.sources && a.worklist == b.worklist && a.requirements.dom()
            == b.requirements.dom() && forall|n: Name, e: EdgeView|
            a.requirements.contains_key(n) ==> (#[trigger] a.requirements[n].contains(e)
                == b.requirements[n].contains(e)),
{
    let x = crate::model::course_of(a);
    let y = crate::model::course_of(b);
    if x == y {
        assert(a.requirements.dom() =~= x.requirements.dom());
        assert(b.requirements.dom() =~= y.requirements.dom());
        assert forall|n: Name, e: EdgeView|
            a.requirements.contains_key(n) implies (#[trigger] a.requirements[n].contains(e)
            == b.requirements[n].contains(e)) by {
            assert(x.requirements[n] == a.requirements[n].to_set());
            assert(b.requirements.dom().contains(n));
            assert(y.requirements[n] == b.requirements[n].to_set());
            assert(a.requirements[n].to_set().contains(e) == a.requirements[n].contains(e));
            assert(b.requirements[n].to_set().contains(e) == b.requirements[n].contains(e));
        }
    }
    if a.nodes == b.nodes && a.sources == b.sources && a.worklist == b.worklist
        && a.requirements.dom() == b.requirements.dom() && forall|n: Name, e: EdgeView|
        a.requirements.contains_key(n) ==> (#[trigger] a.requirements[n].contains(e)
            == b.requirements[n].contains(e)) {
        assert forall|n: Name| #[trigger] a.requirements.contains_key(
            n,
        ) implies x.requirements[n] == y.requirements[n] by {
            assert(b.requirements.dom().contains(n));
            assert(a.requirements[n].to_set() =~= b.requirements[n].to_set());
        }
        assert(x.requirements =~= y.requirements);
    }
}

} // verus!
