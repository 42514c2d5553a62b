//! Topological orders and dependency cycles.
use crate::graph::NodeView;
use crate::package::Name;
use vstd::prelude::*;

verus! {

/// Whether each package in `walk` depends on the next.
pub open spec fn is_walk(nodes: Map<Name, NodeView>, walk: Seq<Name>) -> bool {
    forall|i: int|
        0 <= i < walk.len() - 1 ==> crate::graph::depends(nodes, #[trigger] walk[i], walk[i + 1])
}

/// Whether `walk` leads from a package back to itself.
pub open spec fn is_cycle(nodes: Map<Name, NodeView>, walk: Seq<Name>) -> bool {
    walk.len() > 1 && is_walk(nodes, walk) && walk.first() == walk.last()
}

/// Whether every package that is depended on is a package of the graph.
pub open spec fn is_closed(nodes: Map<Name, NodeView>) -> bool {
    forall|a: Name, d: Name| #[trigger]
        crate::graph::depends(nodes, a, d) ==> nodes.contains_key(d)
}

/// Along a walk the packages come ever earlier in a sorted order.
proof fn lemma_walk_descends(nodes: Map<Name, NodeView>, walk: Seq<Name>, order: Seq<Name>, i: int)
    requires
        is_walk(nodes, walk),
        crate::graph::is_sorted(nodes, order),
        0 <= i < walk.len(),
        order.contains(walk[0]),
    ensures
        order.contains(walk[i]),
        i > 0 ==> order.index_of(walk[i]) < order.index_of(walk[0]),
    decreases i,
{
    if i > 0 {
        lemma_walk_descends(nodes, walk, order, i - 1);
        let a = walk[i - 1];
        let d = walk[i];
        assert(crate::graph::depends(nodes, a, d));
        let k = order.index_of(a);
        assert(crate::graph::depends(nodes, order[k], d));
        assert(order.take(k).contains(d));
        let j = order.take(k).index_of(d);
        assert(order[j] == d);
        assert(order.contains(d));
        assert(order.index_of(d) == j);
    }
}

/// A package on a cycle is in no sorted order, so a graph with a cycle has no topological order.
pub proof fn law_cycles_cannot_be_sorted(nodes: Map<Name, NodeView>, walk: Seq<Name>)
    requires
        is_cycle(nodes, walk),
    ensures
        nodes.contains_key(walk[0]),
        !crate::graph::can_be_sorted(nodes, walk[0]),
        forall|order: Seq<Name>| !crate::graph::is_topological_order(nodes, order),
{
    assert(crate::graph::depends(nodes, walk[0], walk[1]));
    assert forall|order: Seq<Name>| #[trigger]
        crate::graph::is_sorted(nodes, order) implies !order.contains(walk[0]) by {
        if order.contains(walk[0]) {
            lemma_walk_descends(nodes, walk, order, walk.len() - 1);
        }
    }
}

/// A sorted order can be continued until it holds each package whose dependencies it holds.
proof fn lemma_continue(nodes: Map<Name, NodeView>, order: Seq<Name>) -> (full: Seq<Name>)
    requires
        nodes.dom().finite(),
        crate::graph::is_sorted(nodes, order),
    ensures
        crate::graph::is_sorted(nodes, full),
        forall|n: Name|
            nodes.contains_key(n) && (forall|d: Name| #[trigger]
                crate::graph::depends(nodes, n, d) ==> full.contains(d)) ==> #[trigger]
                full.contains(n),
    decreases nodes.dom().len() - order.len(),
{
    lemma_sorted_fits(nodes, order);
    if exists|n: Name|
        nodes.contains_key(n) && !(#[trigger] order.contains(n)) && (forall|d: Name| #[trigger]
            crate::graph::depends(nodes, n, d) ==> order.contains(d)) {
        let n = choose|n: Name|
            nodes.contains_key(n) && !(#[trigger] order.contains(n)) && (forall|d: Name| #[trigger]
                crate::graph::depends(nodes, n, d) ==> order.contains(d));
        let longer = order.push(n);
        assert forall|k: int, d: Name|
            0 <= k < longer.len() && #[trigger] crate::graph::depends(
                nodes,
                longer[k],
                d,
            ) implies longer.take(k).contains(d) by {
            if k < order.len() {
                assert(longer.take(k) =~= order.take(k));
                assert(crate::graph::depends(nodes, order[k], d));
            } else {
                assert(longer.take(k) =~= order);
            }
        }
        lemma_sorted_fits(nodes, longer);
        lemma_continue(nodes, longer)
    } else {
        order
    }
}

proof fn lemma_sorted_fits(nodes: Map<Name, NodeView>, order: Seq<Name>)
    requires
        nodes.dom().finite(),
        crate::graph::is_sorted(nodes, order),
    ensures
        order.len() <= nodes.dom().len(),
{
    lemma_distinct_fits(order, nodes.dom());
}

proof fn lemma_distinct_fits<A>(s: Seq<A>, all: Set<A>)
    requires
        all.finite(),
        s.no_duplicates(),
        forall|i: int| 0 <= i < s.len() ==> all.contains(#[trigger] s[i]),
    ensures
        s.len() <= all.len(),
{
    s.unique_seq_to_set();
    assert forall|a: A| s.to_set().contains(a) implies #[trigger] all.contains(a) by {
        let i = s.index_of(a);
        assert(all.contains(s[i]));
    }
    vstd::set_lib::lemma_len_subset(s.to_set(), all);
}

/// Where each package outside a set depends on another outside it, walks go on for ever.
proof fn lemma_walk_outside(
    nodes: Map<Name, NodeView>,
    inside: Seq<Name>,
    n: Name,
    steps: nat,
) -> (walk: Seq<Name>)
    requires
        is_closed(nodes),
        forall|m: Name|
            nodes.contains_key(m) && (forall|d: Name| #[trigger]
                crate::graph::depends(nodes, m, d) ==> inside.contains(d)) ==> #[trigger]
                inside.contains(m),
        nodes.contains_key(n),
        !inside.contains(n),
    ensures
        walk.len() == steps + 1,
        is_walk(nodes, walk),
        forall|i: int| 0 <= i < walk.len() ==> nodes.contains_key(#[trigger] walk[i]),
    decreases steps,
{
    if steps == 0 {
        seq![n]
    } else {
        let d = choose|d: Name| #[trigger]
            crate::graph::depends(nodes, n, d) && !inside.contains(d);
        let rest = lemma_walk_outside_from(nodes, inside, n, d, (steps - 1) as nat);
        rest
    }
}

proof fn lemma_walk_outside_from(
    nodes: Map<Name, NodeView>,
    inside: Seq<Name>,
    n: Name,
    d: Name,
    steps: nat,
) -> (walk: Seq<Name>)
    requires
        is_closed(nodes),
        forall|m: Name|
            nodes.contains_key(m) && (forall|d: Name| #[trigger]
                crate::graph::depends(nodes, m, d) ==> inside.contains(d)) ==> #[trigger]
                inside.contains(m),
        crate::graph::depends(nodes, n, d),
        !inside.contains(d),
    ensures
        walk.len() == steps + 2,
        walk[0] == n,
        is_walk(nodes, walk),
        forall|i: int| 0 <= i < walk.len() ==> nodes.contains_key(#[trigger] walk[i]),
    decreases steps,
{
    if steps == 0 {
        seq![n, d]
    } else {
        let e = choose|e: Name| #[trigger]
            crate::graph::depends(nodes, d, e) && !inside.contains(e);
        assert(!inside.contains(d));
        let rest = lemma_walk_outside_from(nodes, inside, d, e, (steps - 1) as nat);
        let walk = seq![n] + rest;
        assert forall|i: int| 0 <= i < walk.len() - 1 implies crate::graph::depends(
            nodes,
            #[trigger] walk[i],
            walk[i + 1],
        ) by {
            if i > 0 {
                assert(walk[i] == rest[i - 1]);
                assert(walk[i + 1] == rest[i]);
            }
        }
        walk
    }
}

/// In a graph that holds every package that is depended on, a package that no order reaches leads
/// to a cycle.
pub proof fn law_unsorted_packages_lead_to_a_cycle(nodes: Map<Name, NodeView>, n: Name)
    requires
        nodes.dom().finite(),
        is_closed(nodes),
        nodes.contains_key(n),
        !crate::graph::can_be_sorted(nodes, n),
    ensures
        exists|walk: Seq<Name>| is_cycle(nodes, walk),
{
    let full = lemma_continue(nodes, Seq::empty());
    assert(!full.contains(n));
    let walk = lemma_walk_outside(nodes, full, n, nodes.dom().len());
    if walk.no_duplicates() {
        lemma_distinct_fits(walk, nodes.dom());
    }
    let (i, j) = choose|i: int, j: int|
        0 <= i < walk.len() && 0 <= j < walk.len() && i != j && walk[i] == walk[j];
    let a = if i < j {
        i
    } else {
        j
    };
    let b = if i < j {
        j
    } else {
        i
    };
    let cycle = walk.subrange(a, b + 1);
    assert forall|k: int| 0 <= k < cycle.len() - 1 implies crate::graph::depends(
        nodes,
        #[trigger] cycle[k],
        cycle[k + 1],
    ) by {
        assert(cycle[k] == walk[a + k]);
        assert(cycle[k + 1] == walk[a + k + 1]);
    }
    assert(is_cycle(nodes, cycle));
}

/// A graph that holds every package that is depended on has a topological order if and only if it
/// has no cycle.
pub proof fn law_sortable_iff_acyclic(nodes: Map<Name, NodeView>)
    requires
        nodes.dom().finite(),
        is_closed(nodes),
    ensures
        (exists|order: Seq<Name>| crate::graph::is_topological_order(nodes, order)) <==> !(exists|
            walk: Seq<Name>,
        | is_cycle(nodes, walk)),
{
    if exists|walk: Seq<Name>| is_cycle(nodes, walk) {
        let walk = choose|walk: Seq<Name>| is_cycle(nodes, walk);
        law_cycles_cannot_be_sorted(nodes, walk);
    } else {
        let full = lemma_continue(nodes, Seq::empty());
        assert forall|n: Name| #[trigger] nodes.contains_key(n) implies full.contains(n) by {
            if !full.contains(n) {
                if crate::graph::can_be_sorted(nodes, n) {
                    let order = choose|order: Seq<Name>| #[trigger]
                        crate::graph::is_sorted(nodes, order) && order.contains(n);
                    crate::graph::lemma_sorted_within(
                        nodes,
                        order,
                        full.to_set(),
                        order.len() as int,
                    );
                    let k = order.index_of(n);
                    assert(full.to_set().contains(order[k]));
                }
                law_unsorted_packages_lead_to_a_cycle(nodes, n);
            }
        }
        assert(crate::graph::is_topological_order(nodes, full));
    }
}

} // verus!
