//! What is written and printed, and what the parts of a manifest stand for, character by character
//! and part by part.
use crate::error::{DependencyError, ErrorView};
use crate::graph::{DependencyDetails, DependencyNode, DependencySource, NodeView};
use crate::lockfile::Lockfile;
use crate::manifest::{Dependency, DependencyManifest, PackagesManifest};
use crate::package::Name;
use crate::version::VersionView;
use vstd::prelude::*;

verus! {

/// A list stands for what its items stand for, in their order; an optional item for what it stands
/// for, if there is one.
pub proof fn law_list_stands_for_its_items<T: View>(list: Seq<T>, item: Option<T>)
    ensures
        crate::text::views(list).len() == list.len(),
        forall|i: int|
            0 <= i < list.len() ==> #[trigger] crate::text::views(list)[i] == list[i]@,
        item is None ==> crate::text::opt_view(item) is None,
        item is Some ==> crate::text::opt_view(item) is Some && crate::text::opt_view(item)->0
            == item->0@,
{
}

/// The value of a text of decimal digits.
pub open spec fn value_of(text: Seq<char>) -> nat
    decreases text.len(),
{
    if text.len() == 0 {
        0
    } else {
        10 * value_of(text.drop_last()) + (text.last() as nat - '0' as nat) as nat
    }
}

/// A number in decimal has at least one digit, digits alone, no zero in front unless it is zero,
/// and its digits amount to it.
pub proof fn law_decimal_amounts_to_the_number(n: nat)
    ensures
        crate::text::decimal(n).len() > 0,
        forall|i: int|
            0 <= i < crate::text::decimal(n).len() ==> '0' <= #[trigger] crate::text::decimal(n)[i]
                <= '9',
        n > 0 ==> crate::text::decimal(n)[0] != '0',
        n == 0 ==> crate::text::decimal(n).len() == 1,
        value_of(crate::text::decimal(n)) == n,
    decreases n,
{
    let text = crate::text::decimal(n);
    if n < 10 {
        assert(text.drop_last() =~= seq![]);
        assert(value_of(text.drop_last()) == 0);
        assert(text.last() == crate::text::digit(n));
    } else {
        law_decimal_amounts_to_the_number(n / 10);
        let front = crate::text::decimal(n / 10);
        assert(text.drop_last() =~= front);
        assert(text.last() == crate::text::digit(n % 10));
        assert(text[0] == front[0]);
        assert forall|i: int| 0 <= i < text.len() implies '0' <= #[trigger] text[i] <= '9' by {
            if i < front.len() {
                assert(text[i] == front[i]);
            }
        }
    }
}

/// No part is joined to nothing, one part to itself; another part goes behind the separator.
pub proof fn law_parts_are_joined_in_turn(
    parts: Seq<Seq<char>>,
    last: Seq<char>,
    separator: Seq<char>,
)
    ensures
        crate::text::joined(seq![], separator).len() == 0,
        crate::text::joined(seq![last], separator) == last,
        parts.len() > 0 ==> crate::text::joined(parts.push(last), separator)
            == crate::text::joined(parts, separator) + separator + last,
{
    if parts.len() > 0 {
        assert(parts.push(last).drop_last() =~= parts);
    }
}

/// The text of a version is its three numbers in decimal with dots between, then the prerelease
/// behind a hyphen and the build metadata behind a plus, where there are any. The exact
/// requirement on it is an equals sign before that text without the metadata; the requirement that
/// every release meets is a star.
pub proof fn law_version_is_written_out(v: VersionView)
    ensures
        ({
            let numbers = crate::text::decimal(v.major as nat) + seq!['.'] + crate::text::decimal(
                v.minor as nat,
            ) + seq!['.'] + crate::text::decimal(v.patch as nat);
            let release = if v.pre.len() == 0 {
                numbers
            } else {
                numbers + seq!['-'] + v.pre
            };
            &&& crate::version::release_text(v) == release
            &&& crate::version::version_text(v) == if v.build.len() == 0 {
                release
            } else {
                release + seq!['+'] + v.build
            }
            &&& crate::version::exact_text(v) == seq!['='] + release
            &&& crate::version::star_text() == seq!['*']
        }),
{
    let numbers = crate::text::decimal(v.major as nat) + seq!['.'] + crate::text::decimal(
        v.minor as nat,
    ) + seq!['.'] + crate::text::decimal(v.patch as nat);
    let release = if v.pre.len() == 0 {
        numbers
    } else {
        numbers + seq!['-'] + v.pre
    };
    assert(crate::version::release_text(v) =~= release);
    assert(crate::version::version_text(v) =~= if v.build.len() == 0 {
        release
    } else {
        release + seq!['+'] + v.build
    });
}

/// A requirement admits a version if and only if `semver` says so of its numbers and its
/// prerelease, all of them; build metadata plays no part.
pub proof fn law_requirement_sees_every_number(req: Seq<char>, v: VersionView)
    ensures
        crate::version::satisfies(req, v) == crate::version::matches_release(
            req,
            v.major,
            v.minor,
            v.patch,
            v.pre,
        ),
{
}

/// Numbers go by the major one, then the minor one, then the patch.
pub proof fn law_numbers_go_from_the_major_one(a: VersionView, b: VersionView)
    ensures
        a.major < b.major ==> crate::version::numbers_precede(a, b),
        a.major > b.major ==> !crate::version::numbers_precede(a, b),
        a.major == b.major && a.minor < b.minor ==> crate::version::numbers_precede(a, b),
        a.major == b.major && a.minor > b.minor ==> !crate::version::numbers_precede(a, b),
        a.major == b.major && a.minor == b.minor ==> (crate::version::numbers_precede(a, b)
            <==> a.patch < b.patch),
        crate::version::same_numbers(a, b) <==> a.major == b.major && a.minor == b.minor && a.patch
            == b.patch,
        crate::version::same_release(a, b) <==> a.major == b.major && a.minor == b.minor && a.patch
            == b.patch && a.pre == b.pre,
        crate::version::is_lesser(a, b) <==> (crate::version::numbers_precede(a, b) || (a.major
            == b.major && a.minor == b.minor && a.patch == b.patch && a.pre.len() > 0
            && b.pre.len() == 0)),
{
}

/// A dependency stands for its package and for where it is to be had, as its manifest states.
pub proof fn law_dependency_stands_for_its_parts(d: Dependency)
    ensures
        d@.package == d.package@,
        match d.manifest {
            DependencyManifest::Local(local) => {
                &&& d@.manifest is Local
                &&& d@.manifest->path == local.path@
            },
            DependencyManifest::Remote(remote) => {
                &&& d@.manifest is Remote
                &&& d@.manifest->registry == remote.registry.text@
                &&& d@.manifest->repository == remote.repository@
                &&& d@.manifest->version == remote.version@
            },
        },
{
}

/// A manifest stands for the type of its package, if it is of one, and for its dependencies, all
/// and in their order, each under its name.
pub proof fn law_manifest_stands_for_its_parts(m: PackagesManifest)
    ensures
        m.package is Some ==> m@.package_type == Some(m.package->0.kind),
        m.package is None ==> m@.package_type is None,
        m.dependencies is None ==> m@.dependencies.len() == 0,
        m.dependencies is Some ==> {
            let all = m.dependencies->0@;
            &&& m@.dependencies.len() == all.len()
            &&& forall|i: int|
                0 <= i < all.len() ==> #[trigger] m@.dependencies[i] == all[i]@
        },
        m@.dependency_names().len() == m@.dependencies.len(),
        forall|i: int|
            0 <= i < m@.dependencies.len() ==> #[trigger] m@.dependency_names()[i]
                == m@.dependencies[i].package,
{
}

/// A node and a source stand for their parts.
pub proof fn law_node_stands_for_its_parts(n: DependencyNode)
    ensures
        n@.name == n.name@,
        n@.package_type == n.package_type,
        n@.version == n.version@,
        n.resolved_version is None ==> n@.resolved_version is None,
        n.resolved_version is Some ==> n@.resolved_version == Some(n.resolved_version->0@),
        n@.dependencies.len() == n.dependencies@.len(),
        forall|i: int|
            0 <= i < n.dependencies@.len() ==> #[trigger] n@.dependencies[i]
                == n.dependencies@[i]@,
        match n.source {
            DependencySource::Local { path } => {
                &&& n@.source is Local
                &&& n@.source->path.len() == path@.len()
                &&& forall|i: int|
                    0 <= i < path@.len() ==> #[trigger] n@.source->path[i] == path@[i]@
            },
            DependencySource::Remote { registry, repository } => {
                &&& n@.source is Remote
                &&& n@.source->registry == registry.text@
                &&& n@.source->repository == repository@
            },
        },
{
}

/// A lockfile stands for its pins, all and in their order, each with its name, version and file.
pub proof fn law_lockfile_stands_for_its_pins(l: Lockfile)
    ensures
        l@.len() == l.packages@.len(),
        forall|i: int|
            #![trigger l@[i]]
            0 <= i < l.packages@.len() ==> {
                &&& l@[i].name == l.packages@[i].name@
                &&& l@[i].version == l.packages@[i].version@
                &&& l@[i].file.url == l.packages@[i].file.url@
                &&& l@[i].file.digest == l.packages@[i].file.digest@
            },
{
}

/// An error stands for what it names.
pub proof fn law_error_stands_for_its_parts(e: DependencyError)
    ensures
        match e {
            DependencyError::LocalRemoteConflict { package } => e@ is LocalRemoteConflict
                && e@->LocalRemoteConflict_package == package@,
            DependencyError::InvalidPackageTypeDependency { parent, dependency } => e@ is
                InvalidPackageTypeDependency && e@->parent == parent@ && e@->dependency
                == dependency@,
            DependencyError::CircularDependency(names) => e@ == ErrorView::CircularDependency(
                names@,
            ),
            DependencyError::Offline { name, requirements } => {
                &&& e@ is Offline
                &&& e@->Offline_name == name@
                &&& e@->Offline_requirements.len() == requirements@.len()
                &&& forall|i: int|
                    0 <= i < requirements@.len() ==> #[trigger] e@->Offline_requirements[i]
                        == requirements@[i]@
            },
            DependencyError::NoCompatibleVersion { package, requirements, available_versions } => {
                &&& e@ is NoCompatibleVersion
                &&& e@->NoCompatibleVersion_package == package@
                &&& e@->NoCompatibleVersion_requirements.len() == requirements@.len()
                &&& forall|i: int|
                    0 <= i < requirements@.len()
                        ==> #[trigger] e@->NoCompatibleVersion_requirements[i]
                        == requirements@[i]@
                &&& e@->available_versions.len() == available_versions@.len()
                &&& forall|i: int|
                    0 <= i < available_versions@.len() ==> #[trigger] e@->available_versions[i]
                        == available_versions@[i]@
            },
        },
{
}

/// The message of an error names what the error names, with the lists in their order, a comma and
/// a space between neighbours.
pub proof fn law_message_names_what_the_error_names(
    package: Name,
    other: Name,
    reqs: Seq<Seq<char>>,
    versions: Seq<VersionView>,
)
    ensures
        crate::error::error_text(ErrorView::LocalRemoteConflict { package })
            == "local/remote dependency conflict for package "@ + package,
        crate::error::error_text(
            ErrorView::InvalidPackageTypeDependency { parent: package, dependency: other },
        ) == "package of type lib cannot depend on package of type api: "@ + package + seq![
            ' ',
            '-',
            '>',
            ' ',
        ] + other,
        crate::error::error_text(ErrorView::CircularDependency(package))
            == "circular dependency detected: "@ + package,
        crate::error::error_text(ErrorView::Offline { name: package, requirements: reqs })
            == "cannot fetch "@ + package + " in offline mode (required: ["@ + crate::text::joined(
            reqs,
            seq![',', ' '],
        ) + seq![']', ')'],
        crate::error::error_text(
            ErrorView::NoCompatibleVersion {
                package,
                requirements: reqs,
                available_versions: versions,
            },
        ) == "no version of "@ + package + " satisfies all requirements: ["@ + crate::text::joined(
            reqs,
            seq![',', ' '],
        ) + "]; available versions: ["@ + (if versions.len() == 0 {
            "(none published)"@
        } else {
            crate::text::joined(
                Seq::new(versions.len(), |i: int| crate::version::version_text(versions[i])),
                seq![',', ' '],
            )
        }) + seq![']'],
{
    reveal_strlit(" -> ");
    reveal_strlit(", ");
    reveal_strlit("])");
    reveal_strlit("]");
    assert(" -> "@ =~= seq![' ', '-', '>', ' ']);
    assert(", "@ =~= seq![',', ' ']);
    assert("])"@ =~= seq![']', ')']);
    assert("]"@ =~= seq![']']);
    assert(versions.map_values(|v: VersionView| crate::version::version_text(v)) =~= Seq::new(
        versions.len(),
        |i: int| crate::version::version_text(versions[i]),
    ));
}

/// A topological order holds every package of the graph once, and nothing else; each package comes
/// behind all that it depends on.
pub proof fn law_dependencies_come_first(
    nodes: Map<Name, NodeView>,
    order: Seq<Name>,
    n: Name,
    d: Name,
)
    requires
        crate::graph::is_topological_order(nodes, order),
    ensures
        order.no_duplicates(),
        order.contains(n) <==> nodes.contains_key(n),
        nodes.contains_key(n) && nodes[n].dependencies.contains(d) ==> exists|i: int, j: int|
            #![trigger order[i], order[j]]
            0 <= j < i < order.len() && order[i] == n && order[j] == d,
{
    if order.contains(n) {
        let i = order.index_of(n);
        assert(nodes.contains_key(order[i]));
        if nodes[n].dependencies.contains(d) {
            assert(crate::graph::depends(nodes, order[i], d));
            let j = order.take(i).index_of(d);
            assert(order.take(i)[j] == d);
            assert(order[j] == d && order[i] == n);
        }
    }
}

/// An order is sorted if and only if it holds packages of the graph, none twice, and each behind
/// all that it depends on.
pub proof fn law_sorted_means_dependencies_first(nodes: Map<Name, NodeView>, order: Seq<Name>)
    ensures
        crate::graph::is_sorted(nodes, order) <==> {
            &&& order.no_duplicates()
            &&& forall|i: int| 0 <= i < order.len() ==> nodes.contains_key(#[trigger] order[i])
            &&& forall|i: int, d: Name|
                0 <= i < order.len() && #[trigger] nodes[order[i]].dependencies.contains(d)
                    ==> exists|j: int| 0 <= j < i && #[trigger] order[j] == d
        },
{
    if crate::graph::is_sorted(nodes, order) {
        assert forall|i: int, d: Name|
            0 <= i < order.len() && #[trigger] nodes[order[i]].dependencies.contains(
                d,
            ) implies exists|j: int| 0 <= j < i && #[trigger] order[j] == d by {
            assert(crate::graph::depends(nodes, order[i], d));
            let j = order.take(i).index_of(d);
            assert(order.take(i)[j] == d);
            assert(order[j] == d);
        }
    }
    if (forall|i: int, d: Name|
        0 <= i < order.len() && #[trigger] nodes[order[i]].dependencies.contains(d)
            ==> exists|j: int| 0 <= j < i && #[trigger] order[j] == d) {
        assert forall|i: int, d: Name|
            0 <= i < order.len() && #[trigger] crate::graph::depends(
                nodes,
                order[i],
                d,
            ) implies order.take(i).contains(d) by {
            assert(nodes[order[i]].dependencies.contains(d));
            let j = choose|j: int| 0 <= j < i && #[trigger] order[j] == d;
            assert(order.take(i)[j] == d);
        }
    }
}

/// The error of a graph names packages of it, none twice: those, and only those, that no sorted
/// order holds, of which there is one at least.
pub proof fn law_unsorted_packages_are_named(nodes: Map<Name, NodeView>, e: ErrorView)
    requires
        crate::graph::reports_cycle(nodes, e),
    ensures
        exists|stuck: Seq<Name>|
            #![trigger stuck.no_duplicates()]
            {
                &&& stuck.len() > 0
                &&& stuck.no_duplicates()
                &&& forall|n: Name| #[trigger]
                    stuck.contains(n) <==> nodes.contains_key(n) && !exists|order: Seq<Name>|
                        #[trigger] crate::graph::is_sorted(nodes, order) && order.contains(n)
                &&& e == ErrorView::CircularDependency(
                    crate::text::joined(stuck, seq![' ', '-', '>', ' ']),
                )
            },
{
    reveal_strlit(" -> ");
    assert(" -> "@ =~= seq![' ', '-', '>', ' ']);
    let stuck = choose|stuck: Seq<Name>| #[trigger]
        crate::graph::is_stuck(nodes, stuck) && stuck.len() > 0 && e
            == ErrorView::CircularDependency(crate::text::joined(stuck, " -> "@));
    assert(stuck.no_duplicates());
}

/// The packages on a cycle are named by the error of the graph; the names are joined by arrows,
/// none of them twice.
pub proof fn law_cycle_is_named(
    nodes: Map<Name, NodeView>,
    e: ErrorView,
    walk: Seq<Name>,
    i: int,
)
    requires
        crate::graph::reports_cycle(nodes, e),
        walk.len() > 1,
        walk.first() == walk.last(),
        forall|k: int|
            0 <= k < walk.len() - 1 ==> nodes.contains_key(#[trigger] walk[k])
                && nodes[walk[k]].dependencies.contains(walk[k + 1]),
        0 <= i < walk.len(),
    ensures
        exists|stuck: Seq<Name>|
            #![trigger stuck.no_duplicates()]
            {
                &&& stuck.no_duplicates()
                &&& stuck.contains(walk[i])
                &&& forall|n: Name| #[trigger] stuck.contains(n) ==> nodes.contains_key(n)
                &&& e == ErrorView::CircularDependency(
                    crate::text::joined(stuck, seq![' ', '-', '>', ' ']),
                )
            },
{
    reveal_strlit(" -> ");
    assert(" -> "@ =~= seq![' ', '-', '>', ' ']);
    let stuck = choose|stuck: Seq<Name>| #[trigger]
        crate::graph::is_stuck(nodes, stuck) && stuck.len() > 0 && e
            == ErrorView::CircularDependency(crate::text::joined(stuck, " -> "@));
    assert forall|k: int| 0 <= k < walk.len() - 1 implies crate::graph::depends(
        nodes,
        #[trigger] walk[k],
        walk[k + 1],
    ) by {}
    let at = if i == walk.len() - 1 {
        0
    } else {
        i
    };
    let turned = walk.subrange(at, walk.len() as int) + walk.subrange(1, at + 1);
    assert(turned.len() == walk.len());
    assert forall|k: int| 0 <= k < turned.len() - 1 implies crate::graph::depends(
        nodes,
        #[trigger] turned[k],
        turned[k + 1],
    ) by {
        let split = walk.len() - at;
        if k + 1 < split {
            assert(turned[k] == walk[at + k]);
            assert(turned[k + 1] == walk[at + k + 1]);
        } else if k + 1 == split {
            assert(turned[k] == walk.last());
            assert(turned[k + 1] == walk[1]);
            assert(crate::graph::depends(nodes, walk[0], walk[1]));
        } else {
            assert(turned[k] == walk[k - split + 1]);
            assert(turned[k + 1] == walk[k - split + 2]);
            assert(crate::graph::depends(nodes, walk[k - split + 1], walk[k - split + 1 + 1]));
        }
    }
    assert(turned[0] == walk[at]);
    assert(turned.last() == walk[at]) by {
        if at > 0 {
            assert(turned[turned.len() - 1] == walk[at]);
        }
    }
    assert(crate::cycles::is_cycle(nodes, turned));
    crate::cycles::law_cycles_cannot_be_sorted(nodes, turned);
    assert(stuck.contains(turned[0]));
    assert(stuck.no_duplicates());
}

/// The names in a list of details are theirs, in their order.
pub proof fn law_details_are_named_in_order(details: Seq<DependencyDetails>)
    ensures
        crate::graph::detail_names(details).len() == details.len(),
        forall|i: int|
            0 <= i < details.len() ==> #[trigger] crate::graph::detail_names(details)[i]
                == details[i].name@,
{
}

} // verus!
