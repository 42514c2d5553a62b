//! The retraction of what a package has contributed.
use crate::builder::{EdgeList, GraphBuilder, RequirementEdge};
use crate::graph::MetadataMap;
use crate::model::{BuilderView, EdgeView};
use crate::package::{Name, PackageName};
use vstd::prelude::*;

verus! {

broadcast use crate::text::group_lists;

/// Whether an edge comes from `parent` or from a package in `gone`.
spec fn comes_from_gone(edge: EdgeView, parent: Name, gone: Seq<Name>) -> bool {
    edge.from matches Some(p) && (p == parent || gone.contains(p))
}

impl RequirementEdge {
    /// Whether this edge comes from `parent` or from a package in `gone`.
    fn comes_from_gone(&self, parent: &PackageName, gone: &Vec<PackageName>) -> (r: bool)
        ensures
            r == comes_from_gone(self@, parent@, crate::text::views(gone@)),
    {
        match &self.from {
            Some(from) => from.same(parent) || from.is_in(gone),
            None => false,
        }
    }
}

impl EdgeList {
    /// The edges that come neither from `parent` nor from a package in `gone`.
    fn without_gone(self, parent: &PackageName, gone: &Vec<PackageName>) -> (r: EdgeList)
        ensures
            r@ == self@.filter(
                |e: EdgeView| !comes_from_gone(e, parent@, crate::text::views(gone@)),
            ),
    {
        let ghost all = self@;
        let ghost keep = |e: EdgeView| !comes_from_gone(e, parent@, crate::text::views(gone@));
        let mut edges: Vec<RequirementEdge> = Vec::new();
        for edge in it: self.edges
            invariant
                it.seq() == self.edges@,
                all == self@,
                keep == (|e: EdgeView| !comes_from_gone(e, parent@, crate::text::views(gone@))),
                crate::text::views(edges@) == all.take(it.index() as int).filter(keep),
        {
            proof {
                reveal(Seq::filter);
                assert(all[it.index() as int] == edge@);
                assert(all.take(it.index() + 1).drop_last() =~= all.take(it.index() as int));
            }
            if !edge.comes_from_gone(parent, gone) {
                edges.push(edge);
            }
        }
        assert(all.take(all.len() as int) =~= all);
        EdgeList { edges }
    }
}

/// Whether the root manifest requires a package, or a package in `reached` other than `parent`
/// leads to it.
spec fn follows(b: BuilderView, parent: Name, reached: Seq<Name>, name: Name) -> bool {
    crate::model::is_root(b, name) || exists|a: Name| #[trigger]
        reached.contains(a) && a != parent && crate::model::leads(b, a, name)
}

/// Whatever chain leads to a package stays within a list that holds all that follows from it.
proof fn lemma_chain_within(b: BuilderView, parent: Name, reached: Seq<Name>, path: Seq<Name>, i: int)
    requires
        crate::model::is_chain(b, Some(parent), path),
        0 <= i < path.len(),
        forall|n: Name| #[trigger]
            b.requirements.contains_key(n) && follows(b, parent, reached, n) ==> reached.contains(
                n,
            ),
    ensures
        reached.contains(path[i]),
    decreases i,
{
    if i > 0 {
        lemma_chain_within(b, parent, reached, path, i - 1);
        assert(crate::model::leads(b, path[i - 1], path[i - 1 + 1]));
        assert(reached.contains(path[i - 1]));
    }
    assert(follows(b, parent, reached, path[i]));
    assert(b.requirements.contains_key(path[i]));
}

/// What follows from packages that are reached is reached.
proof fn lemma_reach_further(b: BuilderView, parent: Name, reached: Seq<Name>, name: Name)
    requires
        follows(b, parent, reached, name),
        forall|n: Name| #[trigger]
            reached.contains(n) ==> crate::model::is_reached(b, Some(parent), n),
    ensures
        crate::model::is_reached(b, Some(parent), name),
{
    if crate::model::is_root(b, name) {
        assert(crate::model::is_chain(b, Some(parent), seq![name]));
    } else {
        let a = choose|a: Name| #[trigger]
            reached.contains(a) && a != parent && crate::model::leads(b, a, name);
        let path = choose|path: Seq<Name>| #[trigger]
            crate::model::is_chain(b, Some(parent), path) && path.last() == a;
        let longer = path.push(name);
        assert forall|i: int| 0 <= i < longer.len() - 1 implies Some(parent) != Some(
            #[trigger] longer[i],
        ) && crate::model::leads(b, longer[i], longer[i + 1]) by {
            if i < path.len() - 1 {
                assert(crate::model::leads(b, path[i], path[i + 1]));
            }
        }
        assert(crate::model::is_chain(b, Some(parent), longer));
    }
}

impl GraphBuilder {
    /// Whether a package in `reached` other than `parent` leads to `name`.
    fn is_led_to(
        &self,
        parent: &PackageName,
        reached: &Vec<PackageName>,
        name: &PackageName,
        list: &EdgeList,
    ) -> (r: bool)
        requires
            self.maps_wf(),
            self@.requirements.contains_key(name@),
            list@ == self@.requirements[name@],
        ensures
            r == exists|a: Name| #[trigger]
                crate::text::views(reached@).contains(a) && a != parent@ && crate::model::leads(
                    self@,
                    a,
                    name@,
                ),
    {
        let ghost all = crate::text::views(reached@);
        for i in 0..reached.len()
            invariant
                self.maps_wf(),
                self@.requirements.contains_key(name@),
                list@ == self@.requirements[name@],
                all == crate::text::views(reached@),
                forall|j: int|
                    0 <= j < i ==> #[trigger] all[j] == parent@ || !crate::model::leads(
                        self@,
                        all[j],
                        name@,
                    ),
        {
            let a = &reached[i];
            assert(all[i as int] == a@);
            if !a.same(parent) && !a.same(name) && list.has_edge_from(a) {
                if let Some(node) = self.nodes.get(a) {
                    if name.is_in(&node.dependencies) {
                        assert(crate::model::leads(self@, all[i as int], name@));
                        assert(all.contains(all[i as int]));
                        return true;
                    }
                }
            }
        }
        proof {
            assert forall|a: Name| #[trigger]
                all.contains(a) && a != parent@ implies !crate::model::leads(
                self@,
                a,
                name@,
            ) by {
                let j = all.index_of(a);
                assert(all[j] == a);
            }
        }
        false
    }

    /// The packages that the root manifest leads to, not on from `parent`.
    fn reached_without(&self, parent: &PackageName) -> (r: Vec<PackageName>)
        requires
            self.maps_wf(),
        ensures
            forall|n: Name| #[trigger]
                crate::text::views(r@).contains(n) <==> crate::model::is_reached(
                    self@,
                    Some(parent@),
                    n,
                ),
    {
        let ghost b = self@;
        let ghost names = self.requirements.order();
        proof {
            self.requirements.lemma_order();
        }
        let n: usize = self.requirements.len();
        let mut r: Vec<PackageName> = Vec::new();
        let mut grown: bool = true;
        assert(crate::text::views(r@) =~= seq![]);
        while grown
            invariant
                self.maps_wf(),
                b == self@,
                names == self.requirements.order(),
                n == names.len(),
                forall|m: Name| #[trigger] b.requirements.contains_key(m) <==> names.contains(m),
                crate::text::views(r@).no_duplicates(),
                r@.len() <= n,
                forall|m: Name| #[trigger]
                    crate::text::views(r@).contains(m) ==> names.contains(m)
                        && crate::model::is_reached(b, Some(parent@), m),
                !grown ==> forall|m: Name| #[trigger]
                    b.requirements.contains_key(m) && follows(
                        b,
                        parent@,
                        crate::text::views(r@),
                        m,
                    ) ==> crate::text::views(r@).contains(m),
            decreases 2 * (n - r@.len()) + (if grown {
                1int
            } else {
                0int
            }),
        {
            let ghost start = crate::text::views(r@);
            grown = false;
            for i in 0..n
                invariant
                    self.maps_wf(),
                    b == self@,
                    names == self.requirements.order(),
                    n == names.len(),
                    forall|m: Name| #[trigger]
                        b.requirements.contains_key(m) <==> names.contains(m),
                    crate::text::views(r@).no_duplicates(),
                    r@.len() <= n,
                    forall|m: Name| #[trigger]
                        crate::text::views(r@).contains(m) ==> names.contains(m)
                            && crate::model::is_reached(b, Some(parent@), m),
                    grown ==> r@.len() > start.len(),
                    !grown ==> crate::text::views(r@) == start && forall|j: int|
                        0 <= j < i && follows(b, parent@, start, #[trigger] names[j])
                            ==> start.contains(names[j]),
            {
                let name = self.requirements.name_at(i);
                let list = self.requirements.value_at(i);
                let ghost now = crate::text::views(r@);
                let ghost was = grown;
                assert(names[i as int] == name@);
                if !name.is_in(&r) && (list.has_root_edge() || self.is_led_to(
                    parent,
                    &r,
                    name,
                    list,
                )) {
                    proof {
                        assert(follows(b, parent@, now, name@));
                        lemma_reach_further(b, parent@, now, name@);
                        crate::lists::lemma_push_distinct(now, name@);
                        assert forall|m: Name| #[trigger] now.push(name@).contains(m) implies (
                        names.contains(m) && crate::model::is_reached(b, Some(parent@), m)) by {
                            crate::lists::lemma_push_contains(now, name@, m);
                            assert(names.contains(names[i as int]));
                        }
                        crate::lists::lemma_distinct_within(now.push(name@), names);
                    }
                    r.push(name.clone());
                    grown = true;
                } else {
                    proof {
                        if !was && follows(b, parent@, start, names[i as int]) {
                            assert(start.contains(names[i as int]));
                        }
                    }
                }
            }
            proof {
                if !grown {
                    assert forall|m: Name| #[trigger]
                        b.requirements.contains_key(m) && follows(
                            b,
                            parent@,
                            crate::text::views(r@),
                            m,
                        ) implies crate::text::views(r@).contains(m) by {
                        let j = names.index_of(m);
                        assert(names[j] == m);
                    }
                }
            }
        }
        proof {
            let reached = crate::text::views(r@);
            assert forall|m: Name| #[trigger] reached.contains(m) <==> crate::model::is_reached(
                b,
                Some(parent@),
                m,
            ) by {
                if crate::model::is_reached(b, Some(parent@), m) {
                    let path = choose|path: Seq<Name>| #[trigger]
                        crate::model::is_chain(b, Some(parent@), path) && path.last() == m;
                    lemma_chain_within(b, parent@, reached, path, path.len() - 1);
                }
            }
        }
        r
    }

    /// The packages that are dropped when the contributions of `parent` are retracted, and the
    /// others but `parent`.
    fn dropped_and_kept(&self, parent: &PackageName) -> (r: (Vec<PackageName>, Vec<PackageName>))
        requires
            self.maps_wf(),
        ensures
            crate::text::views(r.0@).no_duplicates(),
            crate::text::views(r.1@).no_duplicates(),
            forall|n: Name| #[trigger]
                crate::text::views(r.0@).contains(n) <==> crate::model::is_dropped(
                    self@,
                    parent@,
                    n,
                ),
            forall|n: Name| #[trigger]
                crate::text::views(r.1@).contains(n) <==> self@.requirements.contains_key(n) && n
                    != parent@ && !crate::model::is_dropped(self@, parent@, n),
    {
        let reached = self.reached_without(parent);
        let ghost b = self@;
        let ghost names = self.requirements.order();
        proof {
            self.requirements.lemma_order();
        }
        let n: usize = self.requirements.len();
        let mut gone: Vec<PackageName> = Vec::new();
        let mut kept: Vec<PackageName> = Vec::new();
        for i in 0..n
            invariant
                self.maps_wf(),
                b == self@,
                names == self.requirements.order(),
                n == names.len(),
                names.no_duplicates(),
                forall|m: Name| #[trigger] b.requirements.contains_key(m) <==> names.contains(m),
                forall|m: Name| #[trigger]
                    crate::text::views(reached@).contains(m) <==> crate::model::is_reached(
                        b,
                        Some(parent@),
                        m,
                    ),
                crate::text::views(gone@).no_duplicates(),
                crate::text::views(kept@).no_duplicates(),
                forall|m: Name| #[trigger]
                    crate::text::views(gone@).contains(m) <==> names.take(i as int).contains(m)
                        && crate::model::is_dropped(b, parent@, m),
                forall|m: Name| #[trigger]
                    crate::text::views(kept@).contains(m) <==> names.take(i as int).contains(m) && m
                        != parent@ && !crate::model::is_dropped(b, parent@, m),
        {
            let name = self.requirements.name_at(i);
            let ghost g = crate::text::views(gone@);
            let ghost k = crate::text::views(kept@);
            proof {
                assert(names[i as int] == name@);
                assert(names.contains(name@));
                assert(!names.take(i as int).contains(name@)) by {
                    if names.take(i as int).contains(name@) {
                        let j = names.take(i as int).index_of(name@);
                        assert(names[j] == names[i as int]);
                    }
                }
                assert(!g.contains(name@) && !k.contains(name@));
                crate::lists::lemma_push_distinct(g, name@);
                crate::lists::lemma_push_distinct(k, name@);
                assert forall|m: Name| #[trigger] names.take(i + 1).contains(m) == (names.take(
                    i as int,
                ).contains(m) || m == name@) by {
                    crate::lists::lemma_push_contains(names.take(i as int), name@, m);
                }
                assert forall|m: Name| #[trigger] g.push(name@).contains(m) == (g.contains(m) || m
                    == name@) by {
                    crate::lists::lemma_push_contains(g, name@, m);
                }
                assert forall|m: Name| #[trigger] k.push(name@).contains(m) == (k.contains(m) || m
                    == name@) by {
                    crate::lists::lemma_push_contains(k, name@, m);
                }
            }
            // Never retract the originating package's own requirement set.
            if !name.same(parent) {
                if name.is_in(&reached) {
                    kept.push(name.clone());
                } else {
                    gone.push(name.clone());
                }
            }
            proof {
                assert forall|m: Name| #[trigger]
                    crate::text::views(gone@).contains(m) <==> names.take(i + 1).contains(m)
                        && crate::model::is_dropped(b, parent@, m) by {
                    assert(g.contains(m) || !g.contains(m));
                    assert(g.push(name@).contains(m) == (g.contains(m) || m == name@));
                }
                assert forall|m: Name| #[trigger]
                    crate::text::views(kept@).contains(m) <==> names.take(i + 1).contains(m) && m
                        != parent@ && !crate::model::is_dropped(b, parent@, m) by {
                    assert(k.contains(m) || !k.contains(m));
                    assert(k.push(name@).contains(m) == (k.contains(m) || m == name@));
                }
            }
        }
        proof {
            assert(names.take(n as int) =~= names);
            assert forall|m: Name| #[trigger]
                crate::text::views(gone@).contains(m) <==> crate::model::is_dropped(
                b,
                parent@,
                m,
            ) by {
                assert(b.requirements.contains_key(m) <==> names.contains(m));
            }
            assert forall|m: Name| #[trigger]
                crate::text::views(kept@).contains(m) <==> b.requirements.contains_key(m) && m
                != parent@ && !crate::model::is_dropped(b, parent@, m) by {
                assert(b.requirements.contains_key(m) <==> names.contains(m));
            }
        }
        (gone, kept)
    }

    /// Drops packages.
    fn drop_all(&mut self, gone: &Vec<PackageName>)
        requires
            old(self).maps_wf(),
        ensures
            final(self).maps_wf(),
            final(self)@ == (BuilderView {
                nodes: old(self)@.nodes.remove_keys(crate::text::views(gone@).to_set()),
                requirements: old(self)@.requirements.remove_keys(
                    crate::text::views(gone@).to_set(),
                ),
                sources: old(self)@.sources.remove_keys(crate::text::views(gone@).to_set()),
                ..old(self)@
            }),
    {
        let ghost before = self@;
        let ghost names = crate::text::views(gone@);
        assert(names.take(0).to_set() =~= Set::empty());
        assert(before.nodes.remove_keys(Set::empty()) =~= before.nodes);
        assert(before.requirements.remove_keys(Set::empty()) =~= before.requirements);
        assert(before.sources.remove_keys(Set::empty()) =~= before.sources);
        for i in 0..gone.len()
            invariant
                self.maps_wf(),
                before == old(self)@,
                names == crate::text::views(gone@),
                self@ == (BuilderView {
                    nodes: before.nodes.remove_keys(names.take(i as int).to_set()),
                    requirements: before.requirements.remove_keys(names.take(i as int).to_set()),
                    sources: before.sources.remove_keys(names.take(i as int).to_set()),
                    ..before
                }),
        {
            let name = &gone[i];
            self.requirements.remove(name);
            self.sources.remove(name);
            self.nodes.remove(name);
            proof {
                let few = names.take(i as int).to_set();
                let more = names.take(i + 1).to_set();
                assert(names[i as int] == name@);
                assert forall|m: Name| #[trigger] more.contains(m) == (few.contains(m) || m
                    == name@) by {
                    crate::lists::lemma_push_contains(names.take(i as int), name@, m);
                    assert(names.take(i as int).contains(m) == few.contains(m));
                    assert(names.take(i + 1).contains(m) == more.contains(m));
                }
                assert(before.nodes.remove_keys(more) =~= before.nodes.remove_keys(few).remove(
                    name@,
                ));
                assert(before.requirements.remove_keys(more) =~= before.requirements.remove_keys(
                    few,
                ).remove(name@));
                assert(before.sources.remove_keys(more) =~= before.sources.remove_keys(few).remove(
                    name@,
                ));
            }
        }
        assert(names.take(names.len() as int) =~= names);
    }

    /// Takes the edges of `parent` and of the packages in `gone` on a package back, and schedules
    /// the package if it lost an edge and its pick does not fit.
    fn retain_edges(&mut self, name: &PackageName, parent: &PackageName, gone: &Vec<PackageName>)
        requires
            old(self).maps_wf(),
            old(self)@.requirements.contains_key(name@),
        ensures
            final(self).maps_wf(),
            ({
                let left = old(self)@.requirements[name@].filter(
                    |e: EdgeView| !comes_from_gone(e, parent@, crate::text::views(gone@)),
                );
                let after = BuilderView {
                    requirements: old(self)@.requirements.insert(name@, left),
                    ..old(self)@
                };
                final(self)@ == if left == old(self)@.requirements[name@] {
                    after
                } else {
                    crate::model::with_visit(after, name@)
                }
            }),
    {
        let ghost before = self@;
        let list = match self.requirements.remove(name) {
            Some(list) => list,
            None => EdgeList { edges: Vec::new() },
        };
        let len: usize = list.edges.len();
        let edges = list.without_gone(parent, gone);
        let ghost left = edges@;
        let lost = edges.edges.len() != len;
        proof {
            crate::lists::lemma_filter_len(
                before.requirements[name@],
                |e: EdgeView| !comes_from_gone(e, parent@, crate::text::views(gone@)),
            );
            assert(left.len() == edges.edges@.len());
            assert(list@.len() == len);
        }
        self.requirements.insert(name.clone(), edges);
        assert(self@ =~= BuilderView {
            requirements: before.requirements.insert(name@, left),
            ..before
        });
        // Still reachable, but the shrunken set may no longer fit the pick.
        // There is no re-optimization upward.
        if lost {
            self.schedule(name);
        }
    }

    /// Retracts every requirement edge contributed by `parent`, dropping the packages that the root
    /// manifest does not lead to then and rescheduling those whose pick no longer fits.
    pub fn retract_contributions_from(&mut self, parent: &PackageName)
        requires
            old(self).wf(),
        ensures
            final(self).wf(),
            final(self)@ == (BuilderView {
                worklist: final(self)@.worklist,
                ..crate::model::retracted(old(self)@, parent@)
            }),
            old(self)@.worklist.is_prefix_of(final(self)@.worklist),
            forall|n: Name| #[trigger]
                final(self)@.worklist.contains(n) <==> old(self)@.worklist.contains(n)
                    || crate::model::is_unsettled(old(self)@, parent@, n),
            crate::model::is_scheduled(old(self)@, Some(parent@)) ==> final(self)@.worklist == old(
                self,
            )@.worklist,
    {
        let ghost before = self@;
        let ghost after = crate::model::retracted(before, parent@);
        let (gone, kept) = self.dropped_and_kept(parent);
        let ghost dropped = crate::text::views(gone@);
        let ghost names = crate::text::views(kept@);
        let ghost keep = |e: EdgeView| !comes_from_gone(e, parent@, dropped);
        self.drop_all(&gone);
        proof {
            lemma_after_drop(before, parent@, dropped, self@);
            assert(before.worklist.subrange(0, before.worklist.len() as int) =~= before.worklist);
            assert(names.take(0) =~= seq![]);
        }
        for i in 0..kept.len()
            invariant
                self.maps_wf(),
                before == old(self)@,
                crate::model::is_consistent(before),
                after == crate::model::retracted(before, parent@),
                dropped == crate::text::views(gone@),
                names == crate::text::views(kept@),
                names.no_duplicates(),
                forall|n: Name| #[trigger]
                    names.contains(n) <==> before.requirements.contains_key(n) && n != parent@
                        && !crate::model::is_dropped(before, parent@, n),
                forall|n: Name| #[trigger]
                    dropped.contains(n) <==> crate::model::is_dropped(before, parent@, n),
                shrinking(before, parent@, names.take(i as int), self@),
        {
            let name = &kept[i];
            let ghost now = self@;
            proof {
                assert(names[i as int] == name@);
                assert(names.contains(name@));
                lemma_same_filter(before, parent@, dropped);
            }
            self.retain_edges(name, parent, &gone);
            proof {
                assert(!names.take(i as int).contains(name@)) by {
                    if names.take(i as int).contains(name@) {
                        let j = names.take(i as int).index_of(name@);
                        assert(names[j] == names[i as int]);
                    }
                }
                lemma_shrink(before, parent@, names.take(i as int), name@, now, self@);
            }
        }
        proof {
            assert(names.take(names.len() as int) =~= names);
            lemma_shrunk(before, parent@, names, self@);
            crate::laws::law_retraction_keeps_consistency(before, parent@);
            assert(self@.sources.dom() == self@.requirements.dom());
        }
    }
}

/// A retraction that has dropped what it drops, and taken back the edges on the packages in `done`.
spec fn shrinking(before: BuilderView, parent: Name, done: Seq<Name>, now: BuilderView) -> bool {
    let after = crate::model::retracted(before, parent);
    &&& now == (BuilderView { requirements: now.requirements, worklist: now.worklist, ..after })
    &&& now.requirements.dom() =~= after.requirements.dom()
    &&& forall|n: Name| #[trigger]
        now.requirements.contains_key(n) ==> now.requirements[n] == if done.contains(n) {
            after.requirements[n]
        } else {
            before.requirements[n]
        }
    &&& before.worklist.is_prefix_of(now.worklist)
    &&& now.worklist.no_duplicates()
    &&& forall|n: Name| #[trigger]
        now.worklist.contains(n) <==> before.worklist.contains(n) || (done.contains(n)
            && crate::model::is_unsettled(before, parent, n))
    &&& crate::model::is_scheduled(before, Some(parent)) ==> now.worklist == before.worklist
}

proof fn lemma_after_drop(before: BuilderView, parent: Name, dropped: Seq<Name>, now: BuilderView)
    requires
        crate::model::is_consistent(before),
        forall|n: Name| #[trigger]
            dropped.contains(n) <==> crate::model::is_dropped(before, parent, n),
        now == (BuilderView {
            nodes: before.nodes.remove_keys(dropped.to_set()),
            requirements: before.requirements.remove_keys(dropped.to_set()),
            sources: before.sources.remove_keys(dropped.to_set()),
            ..before
        }),
    ensures
        shrinking(before, parent, seq![], now),
{
    let after = crate::model::retracted(before, parent);
    assert forall|n: Name| #[trigger]
        dropped.to_set().contains(n) == crate::model::is_dropped(before, parent, n) by {
        assert(dropped.contains(n) == dropped.to_set().contains(n));
    }
    assert(now.nodes =~= after.nodes);
    assert(now.sources =~= after.sources);
    assert(now.requirements.dom() =~= after.requirements.dom());
    assert(before.worklist.subrange(0, before.worklist.len() as int) =~= before.worklist);
}

/// The edges that stay are the same, seen from the list of what is dropped.
proof fn lemma_same_filter(before: BuilderView, parent: Name, dropped: Seq<Name>)
    requires
        forall|n: Name| #[trigger]
            dropped.contains(n) <==> crate::model::is_dropped(before, parent, n),
    ensures
        (|e: EdgeView| !comes_from_gone(e, parent, dropped)) == (|e: EdgeView|
            !crate::model::is_retracted(before, parent, e)),
{
    assert((|e: EdgeView| !comes_from_gone(e, parent, dropped)) =~= (|e: EdgeView|
        !crate::model::is_retracted(before, parent, e))) by {
        assert forall|e: EdgeView| comes_from_gone(e, parent, dropped)
            == crate::model::is_retracted(before, parent, e) by {
            if e.from is Some {
                assert(dropped.contains(e.from->0) == crate::model::is_dropped(
                    before,
                    parent,
                    e.from->0,
                ));
            }
        }
    }
}

proof fn lemma_shrink(
    before: BuilderView,
    parent: Name,
    done: Seq<Name>,
    name: Name,
    now: BuilderView,
    next: BuilderView,
)
    requires
        crate::model::is_consistent(before),
        shrinking(before, parent, done, now),
        !done.contains(name),
        name != parent,
        before.requirements.contains_key(name),
        !crate::model::is_dropped(before, parent, name),
        ({
            let left = crate::model::kept_edges(before, parent, name);
            let mid = BuilderView { requirements: now.requirements.insert(name, left), ..now };
            next == if left == now.requirements[name] {
                mid
            } else {
                crate::model::with_visit(mid, name)
            }
        }),
    ensures
        shrinking(before, parent, done.push(name), next),
{
    let after = crate::model::retracted(before, parent);
    let left = crate::model::kept_edges(before, parent, name);
    let mid = BuilderView { requirements: now.requirements.insert(name, left), ..now };
    assert(now.requirements.contains_key(name));
    assert(now.requirements[name] == before.requirements[name]);
    assert forall|m: Name| #[trigger] done.push(name).contains(m) == (done.contains(m) || m
        == name) by {
        crate::lists::lemma_push_contains(done, name, m);
    }
    assert(crate::model::needs_visit(mid, name) == crate::model::needs_visit(after, name));
    assert(crate::model::is_unsettled(before, parent, name) == (left != before.requirements[name]
        && crate::model::needs_visit(mid, name)));
    if crate::model::is_unsettled(before, parent, name) {
        crate::laws::law_unsettled_was_due(before, parent, name);
        if !mid.worklist.contains(name) {
            crate::lists::lemma_push_distinct(now.worklist, name);
            assert(next.worklist.subrange(0, before.worklist.len() as int)
                =~= now.worklist.subrange(0, before.worklist.len() as int));
        }
    }
    assert forall|n: Name| #[trigger] next.worklist.contains(n) <==> before.worklist.contains(n)
        || (done.push(name).contains(n) && crate::model::is_unsettled(before, parent, n)) by {
        crate::lists::lemma_push_contains(now.worklist, name, n);
        assert(now.worklist.contains(n) || !now.worklist.contains(n));
        assert(done.push(name).contains(n) == (done.contains(n) || n == name));
    }
}

proof fn lemma_shrunk(before: BuilderView, parent: Name, names: Seq<Name>, now: BuilderView)
    requires
        crate::model::is_consistent(before),
        shrinking(before, parent, names, now),
        forall|n: Name| #[trigger]
            names.contains(n) <==> before.requirements.contains_key(n) && n != parent
                && !crate::model::is_dropped(before, parent, n),
    ensures
        now == (BuilderView {
            worklist: now.worklist,
            ..crate::model::retracted(before, parent)
        }),
        forall|n: Name| #[trigger]
            now.worklist.contains(n) <==> before.worklist.contains(n)
                || crate::model::is_unsettled(before, parent, n),
{
    let after = crate::model::retracted(before, parent);
    assert(now.requirements =~= after.requirements) by {
        assert forall|n: Name| #[trigger] after.requirements.contains_key(
            n,
        ) implies now.requirements[n] == after.requirements[n] by {
            assert(now.requirements.dom().contains(n));
            assert(now.requirements.contains_key(n));
            assert(n != parent ==> names.contains(n));
        }
    }
    assert forall|n: Name| #[trigger] now.worklist.contains(n) <==> before.worklist.contains(n)
        || crate::model::is_unsettled(before, parent, n) by {
        if crate::model::is_unsettled(before, parent, n) {
            assert(n != parent);
            assert(names.contains(n));
        }
    }
}

impl EdgeList {
    /// The edges that are still asked for.
    fn live(&self, nodes: &MetadataMap, name: &PackageName, b: Ghost<BuilderView>) -> (r: EdgeList)
        requires
            nodes.wf(),
            nodes@ == b@.nodes,
        ensures
            r@ == self@.filter(|e: EdgeView| crate::model::is_live(b@, name@, e)),
    {
        let ghost all = self@;
        let ghost keep = |e: EdgeView| crate::model::is_live(b@, name@, e);
        let mut edges: Vec<RequirementEdge> = Vec::new();
        for i in 0..self.edges.len()
            invariant
                nodes.wf(),
                nodes@ == b@.nodes,
                all == self@,
                keep == (|e: EdgeView| crate::model::is_live(b@, name@, e)),
                crate::text::views(edges@) == all.take(i as int).filter(keep),
        {
            proof {
                reveal(Seq::filter);
                assert(all[i as int] == self.edges@[i as int]@);
                assert(all.take(i + 1).drop_last() =~= all.take(i as int));
            }
            let live = match &self.edges[i].from {
                Some(parent) => match nodes.get(parent) {
                    Some(node) => name.is_in(&node.dependencies),
                    None => false,
                },
                None => true,
            };
            if live {
                edges.push(
                    RequirementEdge {
                        from: self.edges[i].from.clone(),
                        req: self.edges[i].req.clone(),
                    },
                );
            }
        }
        assert(all.take(all.len() as int) =~= all);
        EdgeList { edges }
    }
}

impl GraphBuilder {
    /// Drops the requirements on a package that are no longer asked for, unless no other is left.
    pub(crate) fn prune(&mut self, name: &PackageName)
        requires
            old(self).wf(),
            old(self)@.requirements.contains_key(name@),
        ensures
            final(self).wf(),
            final(self)@ == crate::model::pruned(old(self)@, name@),
    {
        let ghost before = self@;
        let live = self.requirements.get(name).unwrap().live(&self.nodes, name, Ghost(before));
        if live.edges.len() > 0 {
            assert(live@.len() > 0);
            self.requirements.insert(name.clone(), live);
            assert(self@ =~= crate::model::pruned(before, name@));
            assert(self@.sources.dom() =~= self@.requirements.dom());
        } else {
            assert(live@.len() == 0);
        }
    }
}

} // verus!
