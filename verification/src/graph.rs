//! The dependency graph and its topological order.
use crate::error::{DependencyError, ErrorView};
use crate::manifest::RegistryUri;
use crate::package::{Kept, Name, NameMap, NetworkMode, PackageName, PackageType};
use crate::version::{Version, VersionReq, VersionView};
use std::collections::VecDeque;
use vstd::prelude::*;

verus! {

broadcast use crate::text::group_lists;

/// Models the source of a dependency
#[derive(Debug)]
pub enum DependencySource {
    /// A local dependency, expressed by its path
    Local {
        /// Local path: the segments to be joined one after the other
        path: Vec<String>,
    },
    /// A remote dependency, expressed by its repo & registry
    Remote {
        /// Registry
        registry: RegistryUri,
        /// Repository name
        repository: String,
    },
}

/// What a source says.
pub enum SourceView {
    Local { path: Seq<Seq<char>> },
    Remote { registry: Seq<char>, repository: Seq<char> },
}

impl View for DependencySource {
    type V = SourceView;

    open spec fn view(&self) -> SourceView {
        match *self {
            DependencySource::Local { path } => SourceView::Local {
                path: crate::text::views(path@),
            },
            DependencySource::Remote { registry, repository } => SourceView::Remote {
                registry: registry@,
                repository: repository@,
            },
        }
    }
}

impl Clone for DependencySource {
    fn clone(&self) -> (r: Self)
        ensures
            r@ == self@,
    {
        match self {
            DependencySource::Local { path } => DependencySource::Local {
                path: crate::text::clone_strings(path),
            },
            DependencySource::Remote { registry, repository } => DependencySource::Remote {
                registry: registry.clone(),
                repository: repository.clone(),
            },
        }
    }
}

/// Represents metadata about a dependency in the graph
#[derive(Debug)]
pub struct DependencyNode {
    /// The package name
    pub name: PackageName,
    /// Package type (api or lib)
    pub package_type: Option<PackageType>,
    /// Where this dependency comes from
    pub source: DependencySource,
    /// Packages that this package depends on
    pub dependencies: Vec<PackageName>,
    /// Exact version requirement (`=<resolved>`) for remote deps, `*` for locals
    ///
    /// Consumed by the installer to fetch the package, so it pins the version the
    /// resolver chose rather than the requirement that produced it.
    pub version: VersionReq,
    /// The concrete version that was resolved and downloaded (None for local deps)
    pub resolved_version: Option<Version>,
}

/// What a node says.
pub struct NodeView {
    pub name: Name,
    pub package_type: Option<PackageType>,
    pub source: SourceView,
    pub dependencies: Seq<Name>,
    pub version: Seq<char>,
    pub resolved_version: Option<VersionView>,
}

impl View for DependencyNode {
    type V = NodeView;

    open spec fn view(&self) -> NodeView {
        NodeView {
            name: self.name@,
            package_type: self.package_type,
            source: self.source@,
            dependencies: crate::text::views(self.dependencies@),
            version: self.version@,
            resolved_version: crate::text::opt_view(self.resolved_version),
        }
    }
}

impl Clone for DependencyNode {
    fn clone(&self) -> (r: Self)
        ensures
            r@ == self@,
    {
        let dependencies = self.dependencies.clone();
        assert(crate::text::views(dependencies@) =~= crate::text::views(self.dependencies@));
        DependencyNode {
            name: self.name.clone(),
            package_type: self.package_type,
            source: self.source.clone(),
            dependencies,
            version: self.version.clone(),
            resolved_version: match &self.resolved_version {
                Some(version) => Some(version.clone()),
                None => None,
            },
        }
    }
}

impl Kept for DependencySource {
    open spec fn alike(a: SourceView, b: SourceView) -> bool {
        a == b
    }

    fn copy(&self) -> (r: Self) {
        self.clone()
    }

    fn is_like(&self, other: &Self) -> (r: bool) {
        match (self, other) {
            (DependencySource::Local { path }, DependencySource::Local { path: theirs }) => {
                crate::text::same_strings(path, theirs)
            },
            (
                DependencySource::Remote { registry, repository },
                DependencySource::Remote { registry: from, repository: within },
            ) => registry.text == from.text && *repository == *within,
            _ => false,
        }
    }
}

impl Kept for DependencyNode {
    open spec fn alike(a: NodeView, b: NodeView) -> bool {
        a == b
    }

    fn copy(&self) -> (r: Self) {
        self.clone()
    }

    fn is_like(&self, other: &Self) -> (r: bool) {
        let versions_same = match (&self.resolved_version, &other.resolved_version) {
            (Some(a), Some(b)) => a.same(b),
            (None, None) => true,
            _ => false,
        };
        self.name.same(&other.name) && self.package_type == other.package_type && versions_same
            && self.source.is_like(&other.source) && self.version.same(&other.version)
            && crate::package::same_names(&self.dependencies, &other.dependencies)
    }
}

/// Maps a package name to metadata describing the package
pub type MetadataMap = NameMap<DependencyNode>;

/// Represents a resolved dependency with its name and metadata
#[derive(Debug)]
pub struct DependencyDetails {
    /// The package name
    pub name: PackageName,
    /// The dependency node containing metadata
    pub node: DependencyNode,
}

/// A dependency graph containing nodes and edges
#[derive(Debug)]
pub struct DependencyGraph {
    /// Map of package names to their metadata
    pub nodes: MetadataMap,
    /// Whether network access was allowed when building this graph
    pub network_mode: NetworkMode,
}

/// Whether the package `a` depends on the package `b`.
pub open spec fn depends(nodes: Map<Name, NodeView>, a: Name, b: Name) -> bool {
    nodes.contains_key(a) && nodes[a].dependencies.contains(b)
}

/// Whether `order` holds packages of the graph, none twice, and each of them behind every package
/// that it depends on.
pub open spec fn is_sorted(nodes: Map<Name, NodeView>, order: Seq<Name>) -> bool {
    &&& order.no_duplicates()
    &&& forall|i: int| 0 <= i < order.len() ==> nodes.contains_key(#[trigger] order[i])
    &&& forall|i: int, d: Name|
        0 <= i < order.len() && #[trigger] depends(nodes, order[i], d) ==> order.take(i).contains(d)
}

/// Whether `order` is sorted and holds every package of the graph.
pub open spec fn is_topological_order(nodes: Map<Name, NodeView>, order: Seq<Name>) -> bool {
    is_sorted(nodes, order) && forall|n: Name| #[trigger]
        nodes.contains_key(n) ==> order.contains(n)
}

/// Whether a package can be reached in some order that begins with packages without dependencies.
pub open spec fn can_be_sorted(nodes: Map<Name, NodeView>, n: Name) -> bool {
    exists|order: Seq<Name>| #[trigger] is_sorted(nodes, order) && order.contains(n)
}

/// Whether `stuck` lists, each once, the packages that no order reaches.
pub open spec fn is_stuck(nodes: Map<Name, NodeView>, stuck: Seq<Name>) -> bool {
    &&& stuck.no_duplicates()
    &&& forall|n: Name| #[trigger]
        stuck.contains(n) <==> nodes.contains_key(n) && !can_be_sorted(nodes, n)
}

/// Whether `e` reports the packages that no order reaches, of which there is one at least.
pub open spec fn reports_cycle(nodes: Map<Name, NodeView>, e: ErrorView) -> bool {
    exists|stuck: Seq<Name>| #[trigger]
        is_stuck(nodes, stuck) && stuck.len() > 0 && e == ErrorView::CircularDependency(
            crate::text::joined(stuck, " -> "@),
        )
}

/// How often `a` occurs in `s`.
spec fn occurrences<A>(s: Seq<A>, a: A) -> nat
    decreases s.len(),
{
    if s.len() == 0 {
        0
    } else {
        occurrences(s.drop_last(), a) + (if s.last() == a {
            1nat
        } else {
            0nat
        })
    }
}

/// How many items of `s` are not in `done`.
spec fn pending<A>(s: Seq<A>, done: Set<A>) -> nat
    decreases s.len(),
{
    if s.len() == 0 {
        0
    } else {
        pending(s.drop_last(), done) + (if done.contains(s.last()) {
            0nat
        } else {
            1nat
        })
    }
}

proof fn lemma_occurrences_push<A>(s: Seq<A>, x: A, a: A)
    ensures
        occurrences(s.push(x), a) == occurrences(s, a) + (if x == a {
            1nat
        } else {
            0nat
        }),
{
    assert(s.push(x).drop_last() =~= s);
}

proof fn lemma_occurrences_first<A>(s: Seq<A>, a: A)
    requires
        s.len() > 0,
    ensures
        occurrences(s, a) == occurrences(s.skip(1), a) + (if s[0] == a {
            1nat
        } else {
            0nat
        }),
    decreases s.len(),
{
    if s.len() == 1 {
        assert(s.drop_last() =~= seq![]);
        assert(s.skip(1) =~= seq![]);
    } else {
        lemma_occurrences_first(s.drop_last(), a);
        assert(s.drop_last().skip(1) =~= s.skip(1).drop_last());
    }
}

proof fn lemma_pending_insert<A>(s: Seq<A>, done: Set<A>, a: A)
    requires
        !done.contains(a),
    ensures
        pending(s, done) == pending(s, done.insert(a)) + occurrences(s, a),
    decreases s.len(),
{
    if s.len() > 0 {
        lemma_pending_insert(s.drop_last(), done, a);
    }
}

proof fn lemma_pending_zero<A>(s: Seq<A>, done: Set<A>)
    ensures
        pending(s, done) == 0 <==> forall|k: int| 0 <= k < s.len() ==> done.contains(#[trigger] s[k]),
    decreases s.len(),
{
    if s.len() > 0 {
        let rest = s.drop_last();
        lemma_pending_zero(rest, done);
        if pending(s, done) == 0 {
            assert forall|k: int| 0 <= k < s.len() implies done.contains(#[trigger] s[k]) by {
                if k < rest.len() {
                    assert(rest[k] == s[k]);
                }
            }
        }
        if forall|k: int| 0 <= k < s.len() ==> done.contains(#[trigger] s[k]) {
            assert forall|k: int| 0 <= k < rest.len() implies done.contains(#[trigger] rest[k]) by {
                assert(rest[k] == s[k]);
            }
            assert(done.contains(s[s.len() - 1]));
        }
    }
}

proof fn lemma_pending_none<A>(s: Seq<A>)
    ensures
        pending(s, Set::empty()) == s.len(),
    decreases s.len(),
{
    if s.len() > 0 {
        lemma_pending_none(s.drop_last());
    }
}

/// A sorted order stays within every set that takes in each package once it has taken in what the
/// package depends on.
pub proof fn lemma_sorted_within(
    nodes: Map<Name, NodeView>,
    order: Seq<Name>,
    closed: Set<Name>,
    i: int,
)
    requires
        is_sorted(nodes, order),
        0 <= i <= order.len(),
        forall|n: Name|
            nodes.contains_key(n) && (forall|d: Name| #[trigger]
                depends(nodes, n, d) ==> closed.contains(d)) ==> #[trigger] closed.contains(n),
    ensures
        forall|k: int| 0 <= k < i ==> closed.contains(#[trigger] order[k]),
    decreases i,
{
    if i > 0 {
        lemma_sorted_within(nodes, order, closed, i - 1);
        let n = order[i - 1];
        assert forall|d: Name| #[trigger] depends(nodes, n, d) implies closed.contains(d) by {
            assert(order.take(i - 1).contains(d));
            let k = order.take(i - 1).index_of(d);
            assert(order[k] == d);
        }
        assert(closed.contains(n));
    }
}

/// What the package stored at position `i` depends on.
spec fn dependencies_at(nodes: MetadataMap, i: int) -> Seq<Name> {
    nodes@[nodes.order()[i]].dependencies
}

/// For each position, the positions of the packages that depend on the package there, as often as
/// they do.
fn dependents(nodes: &MetadataMap) -> (r: Vec<Vec<usize>>)
    requires
        nodes.wf(),
    ensures
        r@.len() == nodes.order().len(),
        forall|j: int, t: int|
            0 <= j < r@.len() && 0 <= t < r@[j]@.len() ==> #[trigger] r@[j]@[t]
                < nodes.order().len(),
        forall|j: int, i: usize|
            0 <= j < r@.len() && i < nodes.order().len() ==> #[trigger] occurrences(r@[j]@, i)
                == occurrences(dependencies_at(*nodes, i as int), nodes.order()[j]),
{
    let mut r: Vec<Vec<usize>> = Vec::new();
    let n: usize = nodes.len();
    for j in 0..n
        invariant
            r@.len() == j,
            forall|k: int| 0 <= k < j ==> #[trigger] r@[k]@ =~= Seq::<usize>::empty(),
    {
        r.push(Vec::new());
    }
    for i in 0..n
        invariant
            nodes.wf(),
            n == nodes.order().len(),
            r@.len() == n,
            forall|j: int, t: int|
                0 <= j < n && 0 <= t < r@[j]@.len() ==> #[trigger] r@[j]@[t] < i,
            forall|j: int, k: usize|
                0 <= j < n && k < n ==> #[trigger] occurrences(r@[j]@, k) == if k < i {
                    occurrences(dependencies_at(*nodes, k as int), nodes.order()[j])
                } else {
                    0
                },
    {
        let node = nodes.value_at(i);
        let ghost all = dependencies_at(*nodes, i as int);
        for t in 0..node.dependencies.len()
            invariant
                nodes.wf(),
                n == nodes.order().len(),
                i < n,
                r@.len() == n,
                all == dependencies_at(*nodes, i as int),
                all == crate::text::views(node.dependencies@),
                forall|j: int, t: int|
                    0 <= j < n && 0 <= t < r@[j]@.len() ==> #[trigger] r@[j]@[t] < i + 1,
                forall|j: int, k: usize|
                    0 <= j < n && k < n ==> #[trigger] occurrences(r@[j]@, k) == if k < i {
                        occurrences(dependencies_at(*nodes, k as int), nodes.order()[j])
                    } else if k == i {
                        occurrences(all.take(t as int), nodes.order()[j])
                    } else {
                        0
                    },
        {
            let ghost before = r@;
            match nodes.position(&node.dependencies[t]) {
                Some(j) => {
                    r[j].push(i);
                    assert(r@ =~= before.update(j as int, r@[j as int]));
                    assert(r@[j as int]@ == before[j as int]@.push(i));
                },
                None => {},
            }
            proof {
                assert forall|j: int, k: usize| 0 <= j < n && k < n implies #[trigger] occurrences(
                    r@[j]@,
                    k,
                ) == if k < i {
                    occurrences(dependencies_at(*nodes, k as int), nodes.order()[j])
                } else if k == i {
                    occurrences(all.take(t + 1), nodes.order()[j])
                } else {
                    0
                } by {
                    nodes.lemma_order();
                    lemma_occurrences_push(all.take(t as int), all[t as int], nodes.order()[j]);
                    lemma_occurrences_push(before[j]@, i, k);
                    assert(nodes.order().contains(nodes.order()[j]));
                }
            }
        }
        assert(all.take(all.len() as int) =~= all);
    }
    r
}

/// The state of a topological sort between two packages.
spec fn sorting(
    nodes: MetadataMap,
    in_degree: Seq<usize>,
    queue: Seq<usize>,
    sorted: Seq<Name>,
) -> bool {
    &&& nodes.wf()
    &&& in_degree.len() == nodes.order().len()
    &&& is_sorted(nodes@, sorted)
    &&& queue.no_duplicates()
    &&& forall|k: int| 0 <= k < queue.len() ==> #[trigger] queue[k] < nodes.order().len()
    &&& forall|i: usize|
        i < nodes.order().len() ==> !(#[trigger] queue.contains(i) && sorted.contains(
            nodes.order()[i as int],
        ))
    &&& forall|i: usize|
        i < nodes.order().len() ==> (#[trigger] in_degree[i as int] == 0 <==> queue.contains(i)
            || sorted.contains(nodes.order()[i as int]))
}

/// Whether `in_degree` holds, for each package, how many of its dependencies are not sorted yet.
spec fn counted(nodes: MetadataMap, in_degree: Seq<usize>, sorted: Seq<Name>) -> bool {
    forall|i: int|
        0 <= i < nodes.order().len() ==> #[trigger] in_degree[i] == pending(
            dependencies_at(nodes, i),
            sorted.to_set(),
        )
}

/// A sorted order is no longer than the graph is large, and as long only if it holds every package.
proof fn lemma_sorted_len(nodes: MetadataMap, sorted: Seq<Name>)
    requires
        nodes.wf(),
        is_sorted(nodes@, sorted),
    ensures
        sorted.len() <= nodes.order().len(),
        sorted.len() == nodes.order().len() ==> is_topological_order(nodes@, sorted),
        (forall|n: Name| #[trigger] nodes@.contains_key(n) ==> sorted.contains(n)) ==> sorted.len()
            == nodes.order().len(),
{
    nodes.lemma_order();
    sorted.unique_seq_to_set();
    vstd::seq_lib::seq_to_set_is_finite(sorted);
    let all = nodes@.dom();
    let some = sorted.to_set();
    assert forall|n: Name| some.contains(n) implies #[trigger] all.contains(n) by {
        assert(sorted.contains(n));
        let k = sorted.index_of(n);
        assert(nodes@.contains_key(sorted[k]));
    }
    vstd::set_lib::lemma_len_subset(some, all);
    if sorted.len() == nodes.order().len() {
        vstd::set_lib::lemma_subset_equality(some, all);
        assert forall|n: Name| #[trigger] nodes@.contains_key(n) implies sorted.contains(n) by {
            assert(some.contains(n));
        }
    }
    if forall|n: Name| #[trigger] nodes@.contains_key(n) ==> sorted.contains(n) {
        assert forall|n: Name| all.contains(n) implies #[trigger] some.contains(n) by {
            assert(nodes@.contains_key(n));
        }
        assert(some =~= all);
    }
}

/// The next package goes to the end of the order.
proof fn lemma_sorted_push(nodes: MetadataMap, sorted: Seq<Name>, i: int)
    requires
        nodes.wf(),
        is_sorted(nodes@, sorted),
        0 <= i < nodes.order().len(),
        !sorted.contains(nodes.order()[i]),
        pending(dependencies_at(nodes, i), sorted.to_set()) == 0,
    ensures
        is_sorted(nodes@, sorted.push(nodes.order()[i])),
{
    nodes.lemma_order();
    let name = nodes.order()[i];
    let longer = sorted.push(name);
    assert(nodes.order().contains(name));
    assert(nodes@.dom().contains(name));
    lemma_pending_zero(dependencies_at(nodes, i), sorted.to_set());
    assert forall|k: int, d: Name|
        0 <= k < longer.len() && #[trigger] depends(nodes@, longer[k], d) implies longer.take(
        k,
    ).contains(d) by {
        if k < sorted.len() {
            assert(longer.take(k) =~= sorted.take(k));
            assert(depends(nodes@, sorted[k], d));
        } else {
            assert(longer.take(k) =~= sorted);
            let t = dependencies_at(nodes, i).index_of(d);
            assert(sorted.to_set().contains(dependencies_at(nodes, i)[t]));
        }
    }
}

/// When the queue is empty, the packages in the order are those that some order reaches.
proof fn lemma_sorting_done(nodes: MetadataMap, in_degree: Seq<usize>, sorted: Seq<Name>)
    requires
        sorting(nodes, in_degree, Seq::empty(), sorted),
        counted(nodes, in_degree, sorted),
    ensures
        forall|n: Name| #[trigger] sorted.contains(n) <==> nodes@.contains_key(n) && can_be_sorted(
            nodes@,
            n,
        ),
{
    nodes.lemma_order();
    let closed = sorted.to_set();
    assert forall|n: Name|
        nodes@.contains_key(n) && (forall|d: Name| #[trigger]
            depends(nodes@, n, d) ==> closed.contains(d)) implies #[trigger] closed.contains(n) by {
        assert(nodes.order().to_set().contains(n));
        let i = nodes.order().index_of(n);
        let all = dependencies_at(nodes, i);
        lemma_pending_zero(all, closed);
        assert forall|k: int| 0 <= k < all.len() implies closed.contains(#[trigger] all[k]) by {
            assert(all.contains(all[k]));
            assert(depends(nodes@, n, all[k]));
        }
        assert(in_degree[i] == 0);
        assert(in_degree[(i as usize) as int] == 0);
        assert(!Seq::<usize>::empty().contains(i as usize));
    }
    assert forall|n: Name| #[trigger] sorted.contains(n) <==> nodes@.contains_key(n)
        && can_be_sorted(nodes@, n) by {
        if sorted.contains(n) {
            let k = sorted.index_of(n);
            assert(nodes@.contains_key(sorted[k]));
        }
        if nodes@.contains_key(n) && can_be_sorted(nodes@, n) {
            let order = choose|order: Seq<Name>| #[trigger]
                is_sorted(nodes@, order) && order.contains(n);
            lemma_sorted_within(nodes@, order, closed, order.len() as int);
            let k = order.index_of(n);
            assert(closed.contains(order[k]));
        }
    }
}

/// Puts the next package of the queue into the order, and the packages that waited for nothing else
/// into the queue.
fn sort_next(
    nodes: &MetadataMap,
    waiting: &Vec<Vec<usize>>,
    in_degree: &mut Vec<usize>,
    queue: &mut VecDeque<usize>,
    sorted: &mut Vec<PackageName>,
) -> (r: bool)
    requires
        sorting(*nodes, old(in_degree)@, old(queue)@, crate::text::views(old(sorted)@)),
        counted(*nodes, old(in_degree)@, crate::text::views(old(sorted)@)),
        waiting@.len() == nodes.order().len(),
        forall|j: int, t: int|
            0 <= j < waiting@.len() && 0 <= t < waiting@[j]@.len() ==> #[trigger] waiting@[j]@[t]
                < nodes.order().len(),
        forall|j: int, i: usize|
            0 <= j < waiting@.len() && i < nodes.order().len() ==> #[trigger] occurrences(
                waiting@[j]@,
                i,
            ) == occurrences(dependencies_at(*nodes, i as int), nodes.order()[j]),
    ensures
        sorting(*nodes, final(in_degree)@, final(queue)@, crate::text::views(final(sorted)@)),
        counted(*nodes, final(in_degree)@, crate::text::views(final(sorted)@)),
        r == (old(queue)@.len() > 0),
        r ==> final(sorted)@.len() == old(sorted)@.len() + 1,
        !r ==> final(queue)@.len() == 0 && final(sorted)@ == old(sorted)@,
{
    let ghost before = crate::text::views(sorted@);
    let ghost queued = queue@;
    match queue.pop_front() {
        None => false,
        Some(j) => {
            let ghost name = nodes.order()[j as int];
            let ghost after = before.push(name);
            proof {
                nodes.lemma_order();
                assert(queued[0] == j);
                assert(queued.contains(j));
                assert(in_degree@[j as int] == 0);
                lemma_sorted_push(*nodes, before, j as int);
                assert forall|m: Name| #[trigger] after.to_set().contains(m)
                    == before.to_set().insert(name).contains(m) by {
                    crate::lists::lemma_push_contains(before, name, m);
                }
                assert(after.to_set() =~= before.to_set().insert(name));
                assert forall|i: usize| i < nodes.order().len() implies #[trigger] in_degree@[i as int]
                    == pending(dependencies_at(*nodes, i as int), after.to_set()) + occurrences(
                    waiting@[j as int]@,
                    i,
                ) by {
                    assert(in_degree@[i as int] == pending(
                        dependencies_at(*nodes, i as int),
                        before.to_set(),
                    ));
                    lemma_pending_insert(
                        dependencies_at(*nodes, i as int),
                        before.to_set(),
                        name,
                    );
                }
                assert forall|i: usize| i < nodes.order().len() implies queued.contains(i) == (
                #[trigger] queue@.contains(i) || i == j) by {
                    if queued.contains(i) && i != j {
                        let k = queued.index_of(i);
                        assert(queue@[k - 1] == i);
                    }
                    if queue@.contains(i) {
                        let k = queue@.index_of(i);
                        assert(queued[k + 1] == i);
                    }
                }
                assert(!queue@.contains(j)) by {
                    if queue@.contains(j) {
                        let k = queue@.index_of(j);
                        assert(queued[k + 1] == queued[0]);
                    }
                }
                assert forall|i: usize| i < nodes.order().len() implies #[trigger] after.contains(
                    nodes.order()[i as int],
                ) == (before.contains(nodes.order()[i as int]) || i == j) by {
                    if before.contains(nodes.order()[i as int]) {
                        let k = before.index_of(nodes.order()[i as int]);
                        assert(after[k] == nodes.order()[i as int]);
                    }
                    if i == j {
                        assert(after[before.len() as int] == name);
                    }
                    if after.contains(nodes.order()[i as int]) {
                        let k = after.index_of(nodes.order()[i as int]);
                        if k < before.len() {
                            assert(before[k] == nodes.order()[i as int]);
                        }
                    }
                }
                assert(sorting(*nodes, in_degree@, queue@, after));
            }
            sorted.push(nodes.name_at(j).clone());
            let dependents = &waiting[j];
            assert(dependents@.skip(0) =~= dependents@);
            for t in 0..dependents.len()
                invariant
                    crate::text::views(sorted@) == after,
                    sorting(*nodes, in_degree@, queue@, after),
                    dependents@ == waiting@[j as int]@,
                    forall|k: int|
                        0 <= k < dependents@.len() ==> #[trigger] dependents@[k]
                            < nodes.order().len(),
                    forall|i: usize|
                        i < nodes.order().len() ==> #[trigger] in_degree@[i as int] == pending(
                            dependencies_at(*nodes, i as int),
                            after.to_set(),
                        ) + occurrences(dependents@.skip(t as int), i),
            {
                let i = dependents[t];
                let ghost rest = dependents@.skip(t as int);
                let ghost counts = in_degree@;
                let ghost waits = queue@;
                proof {
                    assert forall|k: usize| true implies #[trigger] occurrences(rest, k)
                        == occurrences(dependents@.skip(t + 1), k) + (if i == k {
                        1nat
                    } else {
                        0nat
                    }) by {
                        lemma_occurrences_first(rest, k);
                        assert(rest.skip(1) =~= dependents@.skip(t + 1));
                    }
                    assert(occurrences(rest, i) > 0);
                    assert(in_degree@[i as int] > 0);
                }
                in_degree.set(i, in_degree[i] - 1);
                if in_degree[i] == 0 {
                    queue.push_back(i);
                    proof {
                        assert(!waits.contains(i));
                        assert forall|k: usize| #[trigger] queue@.contains(k) == (waits.contains(k)
                            || k == i) by {
                            if waits.contains(k) {
                                let u = waits.index_of(k);
                                assert(queue@[u] == k);
                            }
                            if k == i {
                                assert(queue@[waits.len() as int] == i);
                            }
                            if queue@.contains(k) {
                                let u = queue@.index_of(k);
                                if u < waits.len() {
                                    assert(waits[u] == k);
                                }
                            }
                        }
                        assert forall|a: int, b: int|
                            0 <= a < queue@.len() && 0 <= b < queue@.len() && a
                                != b implies queue@[a] != queue@[b] by {
                            if a < waits.len() {
                                assert(waits.contains(waits[a]));
                            }
                            if b < waits.len() {
                                assert(waits.contains(waits[b]));
                            }
                        }
                    }
                }
                proof {
                    assert forall|k: usize| k < nodes.order().len() && k != i implies in_degree@[k as int]
                        == #[trigger] counts[k as int] by {}
                    assert(sorting(*nodes, in_degree@, queue@, after));
                }
            }
            proof {
                nodes.lemma_order();
                assert forall|i: int| 0 <= i < nodes.order().len() implies #[trigger] in_degree@[i]
                    == pending(dependencies_at(*nodes, i), after.to_set()) by {
                    assert(dependents@.skip(dependents@.len() as int) =~= Seq::empty());
                    assert(in_degree@[(i as usize) as int] == in_degree@[i]);
                }
            }
            true
        },
    }
}

impl DependencyGraph {
    /// Perform topological sort on the dependency graph
    ///
    /// Returns packages in installation order (dependencies before dependents)
    /// Detects cycles and returns an error if found
    ///
    /// Implements Kahn's algorithm
    pub fn topological_sort(&self) -> (r: Result<Vec<PackageName>, DependencyError>)
        requires
            self.nodes.wf(),
        ensures
            match r {
                Ok(sorted) => is_topological_order(self.nodes@, crate::text::views(sorted@)),
                Err(e) => reports_cycle(self.nodes@, e@),
            },
    {
        let n: usize = self.nodes.len();
        let waiting = dependents(&self.nodes);
        let mut in_degree: Vec<usize> = Vec::new();
        let mut queue: VecDeque<usize> = VecDeque::new();
        // Packages that depend on nothing come first.
        for i in 0..n
            invariant
                self.nodes.wf(),
                n == self.nodes.order().len(),
                in_degree@.len() == i,
                forall|k: int|
                    0 <= k < i ==> #[trigger] in_degree@[k] == dependencies_at(
                        self.nodes,
                        k,
                    ).len(),
                queue@.no_duplicates(),
                forall|k: int| 0 <= k < queue@.len() ==> #[trigger] queue@[k] < i,
                forall|k: usize|
                    k < i ==> (#[trigger] in_degree@[k as int] == 0 <==> queue@.contains(k)),
        {
            let ghost waits = queue@;
            let ghost counts = in_degree@;
            let degree: usize = self.nodes.value_at(i).dependencies.len();
            in_degree.push(degree);
            if degree == 0 {
                queue.push_back(i);
            }
            proof {
                assert(!waits.contains(i));
                assert forall|k: usize| k < i + 1 implies (#[trigger] in_degree@[k as int] == 0
                    <==> queue@.contains(k)) by {
                    if k < i {
                        assert(in_degree@[k as int] == counts[k as int]);
                        if waits.contains(k) {
                            let u = waits.index_of(k);
                            assert(queue@[u] == k);
                        }
                        if queue@.contains(k) {
                            let u = queue@.index_of(k);
                            assert(waits[u] == k);
                        }
                    } else if degree == 0 {
                        assert(queue@[waits.len() as int] == i);
                    }
                }
            }
        }
        let mut sorted: Vec<PackageName> = Vec::new();
        proof {
            assert(crate::text::views(sorted@) =~= seq![]);
            assert(Seq::<Name>::empty().to_set() =~= Set::empty());
            assert forall|i: int| 0 <= i < n implies #[trigger] in_degree@[i] == pending(
                dependencies_at(self.nodes, i),
                Seq::<Name>::empty().to_set(),
            ) by {
                lemma_pending_none(dependencies_at(self.nodes, i));
            }
        }
        let mut more = true;
        while more
            invariant
                n == self.nodes.order().len(),
                sorting(self.nodes, in_degree@, queue@, crate::text::views(sorted@)),
                counted(self.nodes, in_degree@, crate::text::views(sorted@)),
                waiting@.len() == n,
                forall|j: int, t: int|
                    0 <= j < waiting@.len() && 0 <= t < waiting@[j]@.len()
                        ==> #[trigger] waiting@[j]@[t] < self.nodes.order().len(),
                forall|j: int, i: usize|
                    0 <= j < waiting@.len() && i < self.nodes.order().len()
                        ==> #[trigger] occurrences(waiting@[j]@, i) == occurrences(
                        dependencies_at(self.nodes, i as int),
                        self.nodes.order()[j],
                    ),
                !more ==> queue@.len() == 0,
            decreases
                    n - sorted@.len(),
                    if more {
                        1int
                    } else {
                        0
                    },
        {
            more = sort_next(&self.nodes, &waiting, &mut in_degree, &mut queue, &mut sorted);
            proof {
                lemma_sorted_len(self.nodes, crate::text::views(sorted@));
            }
        }
        let ghost order = crate::text::views(sorted@);
        proof {
            assert(queue@ =~= Seq::empty());
            lemma_sorting_done(self.nodes, in_degree@, order);
            lemma_sorted_len(self.nodes, order);
        }
        if sorted.len() == n {
            return Ok(sorted);
        }
        let mut unprocessed: Vec<String> = Vec::new();
        for i in 0..n
            invariant
                self.nodes.wf(),
                n == self.nodes.order().len(),
                order == crate::text::views(sorted@),
                crate::text::views(unprocessed@).no_duplicates(),
                forall|m: Name| #[trigger]
                    crate::text::views(unprocessed@).contains(m) <==> self.nodes.order().take(
                        i as int,
                    ).contains(m) && !order.contains(m),
        {
            let name = self.nodes.name_at(i);
            let ghost stuck = crate::text::views(unprocessed@);
            if !name.is_in(&sorted) {
                unprocessed.push(name.as_str().to_string());
            }
            proof {
                self.nodes.lemma_order();
                let names = self.nodes.order();
                let now = crate::text::views(unprocessed@);
                assert(!names.take(i as int).contains(names[i as int])) by {
                    if names.take(i as int).contains(names[i as int]) {
                        let k = names.take(i as int).index_of(names[i as int]);
                        assert(names[k] == names[i as int]);
                    }
                }
                assert forall|m: Name| names.take(i + 1).contains(m) == (#[trigger] names.take(
                    i as int,
                ).contains(m) || m == names[i as int]) by {
                    crate::lists::lemma_push_contains(names.take(i as int), names[i as int], m);
                }
                assert forall|m: Name| #[trigger] now.contains(m) <==> names.take(i + 1).contains(m)
                    && !order.contains(m) by {
                    crate::lists::lemma_push_contains(stuck, names[i as int], m);
                    assert(names.take(i as int).contains(m) || !names.take(i as int).contains(m));
                }
                if !order.contains(names[i as int]) {
                    assert(!stuck.contains(names[i as int]));
                    assert forall|a: int, b: int|
                        0 <= a < now.len() && 0 <= b < now.len() && a != b implies now[a]
                        != now[b] by {
                        if a < stuck.len() {
                            assert(stuck.contains(stuck[a]));
                        }
                        if b < stuck.len() {
                            assert(stuck.contains(stuck[b]));
                        }
                    }
                }
            }
        }
        proof {
            self.nodes.lemma_order();
            let stuck = crate::text::views(unprocessed@);
            let names = self.nodes.order();
            assert(names.take(n as int) =~= names);
            assert forall|m: Name| #[trigger] stuck.contains(m) <==> self.nodes@.contains_key(m)
                && !can_be_sorted(self.nodes@, m) by {
                assert(names.to_set().contains(m) == names.contains(m));
                assert(self.nodes@.dom().contains(m) == self.nodes@.contains_key(m));
                assert(order.contains(m) || !order.contains(m));
            }
            assert(is_stuck(self.nodes@, stuck));
            if stuck.len() == 0 {
                assert forall|m: Name| #[trigger] self.nodes@.contains_key(m) implies order.contains(
                    m,
                ) by {
                    assert(!stuck.contains(m));
                }
            }
        }
        Err(DependencyError::CircularDependency(crate::text::join(&unprocessed, " -> ")))
    }

    /// Returns dependencies in topological order (dependencies before dependents)
    ///
    /// This is a convenience method that combines topological_sort with node lookup
    pub fn ordered_dependencies(&self) -> (r: Result<Vec<DependencyDetails>, DependencyError>)
        requires
            self.nodes.wf(),
        ensures
            match r {
                Ok(details) => {
                    &&& is_topological_order(self.nodes@, detail_names(details@))
                    &&& forall|i: int|
                        0 <= i < details@.len() ==> (#[trigger] details@[i]).node@
                            == self.nodes@[details@[i].name@]
                },
                Err(e) => reports_cycle(self.nodes@, e@),
            },
    {
        let sorted = match self.topological_sort() {
            Ok(sorted) => sorted,
            Err(e) => {
                return Err(e);
            },
        };
        let ghost order = crate::text::views(sorted@);
        let mut details: Vec<DependencyDetails> = Vec::new();
        for i in 0..sorted.len()
            invariant
                self.nodes.wf(),
                order == crate::text::views(sorted@),
                is_topological_order(self.nodes@, order),
                detail_names(details@) =~= order.take(i as int),
                forall|k: int|
                    0 <= k < details@.len() ==> (#[trigger] details@[k]).node@
                        == self.nodes@[details@[k].name@],
        {
            let ghost before = details@;
            assert(self.nodes@.contains_key(order[i as int]));
            match self.nodes.get(&sorted[i]) {
                Some(node) => {
                    details.push(
                        DependencyDetails { name: sorted[i].clone(), node: node.clone() },
                    );
                    assert(detail_names(details@) =~= detail_names(before).push(order[i as int]));
                },
                None => {},
            }
        }
        assert(detail_names(details@) =~= order);
        Ok(details)
    }

    /// Gets the number of packages that depend on a package
    pub fn dependants_count_of(&self, package_name: &PackageName) -> (r: usize)
        requires
            self.nodes.wf(),
        ensures
            r == self.nodes@.dom().filter(
                |n: Name| depends(self.nodes@, n, package_name@),
            ).len(),
            r == self.nodes@.dom().filter(
                |n: Name| self.nodes@[n].dependencies.contains(package_name@),
            ).len(),
    {
        let ghost wanted = |n: Name| depends(self.nodes@, n, package_name@);
        let ghost names = self.nodes.order();
        let n: usize = self.nodes.len();
        let mut count: usize = 0;
        assert(names.take(0).to_set().filter(wanted) =~= Set::empty());
        for i in 0..n
            invariant
                self.nodes.wf(),
                names == self.nodes.order(),
                n == names.len(),
                wanted == (|n: Name| depends(self.nodes@, n, package_name@)),
                count <= i,
                names.take(i as int).to_set().filter(wanted).finite(),
                count == names.take(i as int).to_set().filter(wanted).len(),
        {
            let ghost found = names.take(i as int).to_set().filter(wanted);
            let ghost name = names[i as int];
            proof {
                self.nodes.lemma_order();
                assert(!names.take(i as int).contains(name)) by {
                    if names.take(i as int).contains(name) {
                        let k = names.take(i as int).index_of(name);
                        assert(names[k] == names[i as int]);
                    }
                }
                assert forall|m: Name| names.take(i + 1).to_set().contains(m) == (
                #[trigger] names.take(i as int).to_set().contains(m) || m == name) by {
                    crate::lists::lemma_push_contains(names.take(i as int), name, m);
                }
            }
            let node = self.nodes.value_at(i);
            assert(node@ == self.nodes@[name]);
            if package_name.is_in(&node.dependencies) {
                count = count + 1;
                assert(wanted(name));
                assert(!names.take(i as int).to_set().contains(name));
                assert(names.take(i + 1).to_set().filter(wanted) =~= found.insert(name));
            } else {
                assert(names.take(i + 1).to_set().filter(wanted) =~= found);
            }
        }
        proof {
            self.nodes.lemma_order();
            assert(names.take(n as int) =~= names);
            assert(self.nodes@.dom().filter(wanted) =~= self.nodes@.dom().filter(
                |n: Name| self.nodes@[n].dependencies.contains(package_name@),
            ));
        }
        count
    }
}

/// The names in a list of details.
pub open spec fn detail_names(details: Seq<DependencyDetails>) -> Seq<Name> {
    details.map_values(|d: DependencyDetails| d.name@)
}

} // verus!
