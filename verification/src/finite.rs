//! Finite sets of pairs, lists, sets and maps.
use vstd::prelude::*;

verus! {

/// The pairs of an item of `a` and an item of `b`.
pub open spec fn pairs<A, B>(a: Set<A>, b: Set<B>) -> Set<(A, B)> {
    Set::new(|p: (A, B)| a.contains(p.0) && b.contains(p.1))
}

/// The lists of at most `n` items of `a`.
pub open spec fn lists_of<A>(a: Set<A>, n: nat) -> Set<Seq<A>> {
    Set::new(
        |s: Seq<A>|
            s.len() <= n && forall|i: int| 0 <= i < s.len() ==> a.contains(#[trigger] s[i]),
    )
}

/// The sets of items of `a`.
pub open spec fn sets_of<A>(a: Set<A>) -> Set<Set<A>> {
    Set::new(|s: Set<A>| s.subset_of(a))
}

/// The maps from items of `a` to items of `b`.
pub open spec fn maps_of<A, B>(a: Set<A>, b: Set<B>) -> Set<Map<A, B>> {
    Set::new(
        |m: Map<A, B>|
            m.dom().subset_of(a) && forall|k: A| #[trigger] m.contains_key(k) ==> b.contains(m[k]),
    )
}

pub proof fn lemma_pairs_are_finite<A, B>(a: Set<A>, b: Set<B>)
    requires
        a.finite(),
        b.finite(),
    ensures
        pairs(a, b).finite(),
    decreases a.len(),
{
    if a.len() == 0 {
        assert(a =~= Set::empty());
        assert(pairs(a, b) =~= Set::empty());
    } else {
        let x = a.choose();
        lemma_pairs_are_finite(a.remove(x), b);
        let f = |y: B| (x, y);
        b.lemma_map_finite(f);
        let row = b.map(f);
        assert(pairs(a, b) =~= pairs(a.remove(x), b).union(row)) by {
            assert forall|p: (A, B)| pairs(a, b).contains(p) implies #[trigger] pairs(
                a.remove(x),
                b,
            ).union(row).contains(p) by {
                if p.0 == x {
                    assert(f(p.1) == p);
                    assert(row.contains(p));
                }
            }
        }
    }
}

pub proof fn lemma_lists_are_finite<A>(a: Set<A>, n: nat)
    requires
        a.finite(),
    ensures
        lists_of(a, n).finite(),
    decreases n,
{
    let none = Set::empty().insert(Seq::<A>::empty());
    if n == 0 {
        assert forall|s: Seq<A>| #[trigger] lists_of(a, n).contains(s) == none.contains(s) by {
            if s.len() == 0 {
                assert(s =~= Seq::empty());
            }
        }
        assert(lists_of(a, n) =~= none);
    } else {
        let m = (n - 1) as nat;
        lemma_lists_are_finite(a, m);
        lemma_pairs_are_finite(lists_of(a, m), a);
        let f = |p: (Seq<A>, A)| p.0.push(p.1);
        pairs(lists_of(a, m), a).lemma_map_finite(f);
        let longer = pairs(lists_of(a, m), a).map(f);
        assert forall|s: Seq<A>| #[trigger] lists_of(a, n).contains(s) implies none.union(
            longer,
        ).contains(s) by {
            if s.len() == 0 {
                assert(s =~= Seq::empty());
            } else {
                let p = (s.drop_last(), s.last());
                assert(s =~= s.drop_last().push(s.last()));
                assert forall|i: int| 0 <= i < p.0.len() implies a.contains(#[trigger] p.0[i]) by {
                    assert(p.0[i] == s[i]);
                }
                assert(a.contains(s[s.len() - 1]));
                assert(pairs(lists_of(a, m), a).contains(p));
                assert(f(p) == s);
                assert(longer.contains(s));
            }
        }
        assert(lists_of(a, n).subset_of(none.union(longer)));
        vstd::set_lib::lemma_set_subset_finite(none.union(longer), lists_of(a, n));
    }
}

pub proof fn lemma_sets_are_finite<A>(a: Set<A>)
    requires
        a.finite(),
    ensures
        sets_of(a).finite(),
    decreases a.len(),
{
    if a.len() == 0 {
        assert(a =~= Set::empty());
        assert(sets_of(a) =~= Set::empty().insert(Set::<A>::empty())) by {
            assert forall|s: Set<A>| sets_of(a).contains(s) implies s == Set::<A>::empty() by {
                assert(s =~= Set::<A>::empty());
            }
        }
    } else {
        let x = a.choose();
        lemma_sets_are_finite(a.remove(x));
        let f = |s: Set<A>| s.insert(x);
        sets_of(a.remove(x)).lemma_map_finite(f);
        let with = sets_of(a.remove(x)).map(f);
        assert forall|s: Set<A>| #[trigger] sets_of(a).contains(s) implies sets_of(
            a.remove(x),
        ).union(with).contains(s) by {
            if s.contains(x) {
                assert(sets_of(a.remove(x)).contains(s.remove(x)));
                assert(f(s.remove(x)) =~= s);
                assert(with.contains(s));
            } else {
                assert(s.subset_of(a.remove(x)));
            }
        }
        assert(sets_of(a).subset_of(sets_of(a.remove(x)).union(with)));
        vstd::set_lib::lemma_set_subset_finite(sets_of(a.remove(x)).union(with), sets_of(a));
    }
}

pub proof fn lemma_maps_are_finite<A, B>(a: Set<A>, b: Set<B>)
    requires
        a.finite(),
        b.finite(),
    ensures
        maps_of(a, b).finite(),
    decreases a.len(),
{
    if a.len() == 0 {
        assert(a =~= Set::empty());
        assert(maps_of(a, b) =~= Set::empty().insert(Map::<A, B>::empty())) by {
            assert forall|m: Map<A, B>| maps_of(a, b).contains(m) implies m
                == Map::<A, B>::empty() by {
                assert(m =~= Map::<A, B>::empty());
            }
        }
    } else {
        let x = a.choose();
        let rest = maps_of(a.remove(x), b);
        lemma_maps_are_finite(a.remove(x), b);
        lemma_pairs_are_finite(rest, b);
        let f = |p: (Map<A, B>, B)| p.0.insert(x, p.1);
        pairs(rest, b).lemma_map_finite(f);
        let with = pairs(rest, b).map(f);
        assert forall|m: Map<A, B>| #[trigger] maps_of(a, b).contains(m) implies rest.union(
            with,
        ).contains(m) by {
            if m.contains_key(x) {
                let p = (m.remove(x), m[x]);
                assert(rest.contains(p.0)) by {
                    assert forall|k: A| #[trigger] p.0.contains_key(k) implies b.contains(
                        p.0[k],
                    ) by {
                        assert(m.contains_key(k));
                    }
                    assert(p.0.dom().subset_of(a.remove(x)));
                }
                assert(pairs(rest, b).contains(p));
                assert(f(p) =~= m);
                assert(with.contains(m));
            } else {
                assert(m.dom().subset_of(a.remove(x)));
            }
        }
        assert(maps_of(a, b).subset_of(rest.union(with)));
        vstd::set_lib::lemma_set_subset_finite(rest.union(with), maps_of(a, b));
    }
}

} // verus!
