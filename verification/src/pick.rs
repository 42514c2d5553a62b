//! The choice of a version: the highest one that meets every requirement.
use crate::version::{Version, VersionReq, VersionView};
use vstd::prelude::*;

verus! {

/// Whether `v` meets every requirement in `reqs`.
pub open spec fn satisfies_all(reqs: Seq<Seq<char>>, v: VersionView) -> bool {
    forall|i: int| 0 <= i < reqs.len() ==> crate::version::satisfies(#[trigger] reqs[i], v)
}

/// Whether `v` is among `versions`, meets every requirement, and comes after every other version
/// there that does.
pub open spec fn is_highest(
    versions: Seq<VersionView>,
    reqs: Seq<Seq<char>>,
    v: VersionView,
) -> bool {
    &&& versions.contains(v)
    &&& satisfies_all(reqs, v)
    &&& forall|w: VersionView| #[trigger]
        versions.contains(w) && satisfies_all(reqs, w) && w != v ==> crate::version::precedes(w, v)
            && !crate::version::precedes(v, w) && !crate::version::is_lesser(v, w)
}

/// Whether `pick` is the choice among `versions` under `reqs`: the highest version that meets every
/// requirement, or nothing if and only if no version does.
pub open spec fn is_pick(
    versions: Seq<VersionView>,
    reqs: Seq<Seq<char>>,
    pick: Option<VersionView>,
) -> bool {
    match pick {
        Some(v) => is_highest(versions, reqs, v),
        None => forall|w: VersionView| #[trigger] versions.contains(w) ==> !satisfies_all(reqs, w),
    }
}

/// Whether `v` meets every requirement in `reqs`.
pub fn meets_all(reqs: &Vec<VersionReq>, v: &Version) -> (r: bool)
    ensures
        r == satisfies_all(crate::text::views(reqs@), v@),
{
    let ghost all = crate::text::views(reqs@);
    for i in 0..reqs.len()
        invariant
            all == crate::text::views(reqs@),
            forall|j: int| 0 <= j < i ==> crate::version::satisfies(#[trigger] all[j], v@),
    {
        if !reqs[i].matches(v) {
            assert(!crate::version::satisfies(all[i as int], v@));
            return false;
        }
    }
    true
}

/// The first position of the highest version that meets every requirement.
pub fn highest_position(versions: &Vec<Version>, reqs: &Vec<VersionReq>) -> (r: Option<usize>)
    ensures
        r matches Some(i) ==> i < versions@.len() && forall|j: int|
            0 <= j < i ==> (#[trigger] versions@[j])@ != versions@[i as int]@,
        is_pick(
            crate::text::views(versions@),
            crate::text::views(reqs@),
            match r {
                Some(i) => Some(versions@[i as int]@),
                None => None,
            },
        ),
{
    let ghost all = crate::text::views(versions@);
    let ghost wanted = crate::text::views(reqs@);
    let mut best: Option<usize> = None;
    for i in 0..versions.len()
        invariant
            all == crate::text::views(versions@),
            wanted == crate::text::views(reqs@),
            match best {
                Some(b) => {
                    &&& b < i
                    &&& satisfies_all(wanted, all[b as int])
                    &&& forall|j: int| 0 <= j < b ==> #[trigger] all[j] != all[b as int]
                    &&& forall|j: int|
                        0 <= j < i && satisfies_all(wanted, #[trigger] all[j]) && all[j]
                            != all[b as int] ==> crate::version::precedes(all[j], all[b as int])
                            && !crate::version::precedes(all[b as int], all[j])
                            && !crate::version::is_lesser(all[b as int], all[j])
                            && all[j].valid()
                },
                None => forall|j: int| 0 <= j < i ==> !satisfies_all(wanted, #[trigger] all[j]),
            },
    {
        if meets_all(reqs, &versions[i]) {
            match best {
                Some(b) => {
                    if versions[b].is_before(&versions[i]) {
                        best = Some(i);
                        assert forall|j: int| 0 <= j < i implies #[trigger] all[j]
                            != all[i as int] by {
                            if all[j] == all[i as int] {
                                assert(satisfies_all(wanted, all[j]));
                            }
                        }
                    }
                },
                None => {
                    best = Some(i);
                },
            }
        }
    }
    proof {
        match best {
            Some(b) => {
                assert(all[b as int] == versions@[b as int]@);
                assert(all.contains(all[b as int]));
                assert forall|j: int| 0 <= j < b implies (#[trigger] versions@[j])@
                    != versions@[b as int]@ by {
                    assert(all[j] == versions@[j]@);
                }
            },
            None => {},
        }
    }
    best
}

/// The highest version that meets every requirement.
pub fn highest_satisfying_all(versions: &Vec<Version>, reqs: &Vec<VersionReq>) -> (r: Option<
    Version,
>)
    ensures
        is_pick(
            crate::text::views(versions@),
            crate::text::views(reqs@),
            match r {
                Some(v) => Some(v@),
                None => None,
            },
        ),
{
    match highest_position(versions, reqs) {
        Some(i) => Some(versions[i].clone()),
        None => None,
    }
}

/// There is one choice at most.
pub proof fn law_pick_is_unique(
    versions: Seq<VersionView>,
    reqs: Seq<Seq<char>>,
    a: Option<VersionView>,
    b: Option<VersionView>,
)
    requires
        is_pick(versions, reqs, a),
        is_pick(versions, reqs, b),
    ensures
        a == b,
{
}

/// The choice goes by which requirements there are and which versions are published, whatever the
/// order in which they were met or listed, and however often.
pub proof fn law_pick_ignores_order(
    versions: Seq<VersionView>,
    other_versions: Seq<VersionView>,
    reqs: Seq<Seq<char>>,
    other_reqs: Seq<Seq<char>>,
    pick: Option<VersionView>,
)
    requires
        versions.to_set() == other_versions.to_set(),
        reqs.to_set() == other_reqs.to_set(),
    ensures
        is_pick(versions, reqs, pick) == is_pick(other_versions, other_reqs, pick),
{
    assert forall|v: VersionView|
        #![trigger versions.contains(v)]
        #![trigger other_versions.contains(v)]
        versions.contains(v) == other_versions.contains(v) by {
        assert(versions.to_set().contains(v) == versions.contains(v));
        assert(other_versions.to_set().contains(v) == other_versions.contains(v));
    }
    assert forall|v: VersionView|
        #![trigger satisfies_all(reqs, v)]
        #![trigger satisfies_all(other_reqs, v)]
        satisfies_all(reqs, v) == satisfies_all(other_reqs, v) by {
        if satisfies_all(reqs, v) {
            lemma_satisfies_all_by_set(reqs, other_reqs, v);
        }
        if satisfies_all(other_reqs, v) {
            lemma_satisfies_all_by_set(other_reqs, reqs, v);
        }
    }
}

proof fn lemma_satisfies_all_by_set(reqs: Seq<Seq<char>>, subset: Seq<Seq<char>>, v: VersionView)
    requires
        subset.to_set().subset_of(reqs.to_set()),
        satisfies_all(reqs, v),
    ensures
        satisfies_all(subset, v),
{
    assert forall|i: int| 0 <= i < subset.len() implies crate::version::satisfies(
        #[trigger] subset[i],
        v,
    ) by {
        assert(subset.to_set().contains(subset[i]));
        assert(reqs.contains(subset[i]));
    }
}

/// Further requirements never raise the choice, and never bring one about.
pub proof fn law_more_requirements_never_raise_the_pick(
    versions: Seq<VersionView>,
    reqs: Seq<Seq<char>>,
    more: Seq<Seq<char>>,
    before: Option<VersionView>,
    after: Option<VersionView>,
)
    requires
        reqs.to_set().subset_of(more.to_set()),
        is_pick(versions, reqs, before),
        is_pick(versions, more, after),
    ensures
        after matches Some(w) ==> before is Some && (w == before->0 || (crate::version::precedes(
            w,
            before->0,
        ) && !crate::version::precedes(before->0, w))),
{
    if after is Some {
        lemma_satisfies_all_by_set(more, reqs, after->0);
    }
}

/// A choice stands while the versions it was made from and the version itself remain, however many
/// requirements that it meets are added.
pub proof fn law_pick_stands_while_it_fits(
    versions: Seq<VersionView>,
    reqs: Seq<Seq<char>>,
    more: Seq<Seq<char>>,
    v: VersionView,
)
    requires
        reqs.to_set().subset_of(more.to_set()),
        is_pick(versions, reqs, Some(v)),
        satisfies_all(more, v),
    ensures
        is_pick(versions, more, Some(v)),
{
    assert forall|w: VersionView| #[trigger]
        versions.contains(w) && satisfies_all(more, w) implies satisfies_all(reqs, w) by {
        lemma_satisfies_all_by_set(more, reqs, w);
    }
}

/// What meets requirements meets any of them.
pub proof fn lemma_fewer_requirements(
    reqs: Seq<Seq<char>>,
    more: Seq<Seq<char>>,
    v: VersionView,
)
    requires
        reqs.to_set().subset_of(more.to_set()),
        satisfies_all(more, v),
    ensures
        satisfies_all(reqs, v),
{
    assert forall|i: int| 0 <= i < reqs.len() implies crate::version::satisfies(
        #[trigger] reqs[i],
        v,
    ) by {
        assert(reqs.to_set().contains(reqs[i]));
        let j = more.index_of(reqs[i]);
        assert(more[j] == reqs[i]);
    }
}

/// A choice that a further requirement does not admit gives way to a lower one, if there is one.
pub proof fn law_later_pick_is_lower(
    versions: Seq<VersionView>,
    reqs: Seq<Seq<char>>,
    more: Seq<Seq<char>>,
    before: VersionView,
    after: VersionView,
)
    requires
        reqs.to_set().subset_of(more.to_set()),
        is_pick(versions, reqs, Some(before)),
        !satisfies_all(more, before),
        is_pick(versions, more, Some(after)),
    ensures
        crate::version::precedes(after, before),
        !crate::version::precedes(before, after),
{
    law_more_requirements_never_raise_the_pick(versions, reqs, more, Some(before), Some(after));
}

} // verus!
