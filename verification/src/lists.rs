//! Facts about sequences.
use vstd::prelude::*;

verus! {

/// An item that is not in a list without duplicates can be put at its end.
pub proof fn lemma_push_distinct<A>(s: Seq<A>, a: A)
    requires
        s.no_duplicates(),
        !s.contains(a),
    ensures
        s.push(a).no_duplicates(),
{
    assert forall|i: int, j: int|
        0 <= i < s.push(a).len() && 0 <= j < s.push(a).len() && i != j implies s.push(a)[i]
        != s.push(a)[j] by {
        if i < s.len() {
            assert(s.contains(s[i]));
        }
        if j < s.len() {
            assert(s.contains(s[j]));
        }
    }
}

/// What a list holds with one more item at its end.
pub proof fn lemma_push_contains<A>(s: Seq<A>, a: A, x: A)
    ensures
        s.push(a).contains(x) == (s.contains(x) || x == a),
{
    if s.contains(x) {
        let i = s.index_of(x);
        assert(s.push(a)[i] == x);
    }
    if x == a {
        assert(s.push(a)[s.len() as int] == x);
    }
    if s.push(a).contains(x) {
        let i = s.push(a).index_of(x);
        if i < s.len() {
            assert(s[i] == x);
        }
    }
}

/// A list with a part of it behind the rest holds the same items, none twice if none was.
pub proof fn lemma_behind<A>(s: Seq<A>, start: int, end: int)
    requires
        0 <= start <= end <= s.len(),
    ensures
        ({
            let after = s.take(start) + s.skip(end) + s.subrange(start, end);
            &&& after.len() == s.len()
            &&& s.no_duplicates() ==> after.no_duplicates()
            &&& forall|a: A| #[trigger] after.contains(a) == s.contains(a)
        }),
{
    let after = s.take(start) + s.skip(end) + s.subrange(start, end);
    let rest = s.len() - end;
    let of = |i: int|
        if i < start {
            i
        } else if i < start + rest {
            i - start + end
        } else {
            i - rest
        };
    assert forall|i: int| 0 <= i < after.len() implies #[trigger] after[i] == s[of(i)] && 0 <= of(i)
        < s.len() by {}
    assert forall|a: A| #[trigger] after.contains(a) == s.contains(a) by {
        if after.contains(a) {
            let i = after.index_of(a);
            assert(s[of(i)] == a);
        }
        if s.contains(a) {
            let j = s.index_of(a);
            let i = if j < start {
                j
            } else if j < end {
                j + rest
            } else {
                j - end + start
            };
            assert(after[i] == s[of(i)]);
            assert(after[i] == a);
        }
    }
    if s.no_duplicates() {
        assert forall|i: int, j: int|
            0 <= i < after.len() && 0 <= j < after.len() && i != j implies after[i] != after[j] by {
            assert(after[i] == s[of(i)] && after[j] == s[of(j)]);
            assert(of(i) != of(j));
        }
    }
}

/// A filter that every item passes changes nothing.
pub proof fn lemma_filter_all<A>(s: Seq<A>, p: spec_fn(A) -> bool)
    requires
        forall|i: int| 0 <= i < s.len() ==> p(#[trigger] s[i]),
    ensures
        s.filter(p) == s,
    decreases s.len(),
{
    reveal(Seq::filter);
    if s.len() > 0 {
        assert forall|i: int| 0 <= i < s.drop_last().len() implies p(
            #[trigger] s.drop_last()[i],
        ) by {
            assert(s.drop_last()[i] == s[i]);
        }
        lemma_filter_all(s.drop_last(), p);
        assert(p(s[s.len() - 1]));
        assert(s.drop_last().push(s.last()) =~= s);
    }
}

/// What passes a filter is what is there and fits.
pub proof fn lemma_filter_contents<A>(s: Seq<A>, p: spec_fn(A) -> bool)
    ensures
        forall|i: int|
            0 <= i < s.filter(p).len() ==> p(#[trigger] s.filter(p)[i]) && s.contains(
                s.filter(p)[i],
            ),
        forall|i: int|
            0 <= i < s.len() && p(#[trigger] s[i]) ==> s.filter(p).contains(s[i]),
    decreases s.len(),
{
    reveal(Seq::filter);
    if s.len() > 0 {
        let rest = s.drop_last();
        lemma_filter_contents(rest, p);
        assert forall|i: int| 0 <= i < s.filter(p).len() implies p(#[trigger] s.filter(p)[i])
            && s.contains(s.filter(p)[i]) by {
            if i < rest.filter(p).len() {
                assert(s.filter(p)[i] == rest.filter(p)[i]);
                let k = rest.index_of(rest.filter(p)[i]);
                assert(s[k] == rest[k]);
            } else {
                assert(s.filter(p)[i] == s[s.len() - 1]);
            }
        }
        assert forall|i: int| 0 <= i < s.len() && p(#[trigger] s[i]) implies s.filter(p).contains(
            s[i],
        ) by {
            if i < rest.len() {
                assert(rest[i] == s[i]);
                let k = rest.filter(p).index_of(s[i]);
                assert(s.filter(p)[k] == s[i]);
            } else {
                assert(s.filter(p)[rest.filter(p).len() as int] == s[i]);
            }
        }
    }
}

/// A filter leaves fewer items, or all of them as they are.
pub proof fn lemma_filter_len<A>(s: Seq<A>, p: spec_fn(A) -> bool)
    ensures
        s.filter(p).len() <= s.len(),
        s.filter(p).len() == s.len() ==> s.filter(p) == s,
    decreases s.len(),
{
    reveal(Seq::filter);
    if s.len() > 0 {
        lemma_filter_len(s.drop_last(), p);
        assert(s.drop_last().push(s.last()) =~= s);
    }
}

/// A list without duplicates is no longer than a list that holds all its items.
pub proof fn lemma_distinct_within<A>(s: Seq<A>, all: Seq<A>)
    requires
        s.no_duplicates(),
        forall|a: A| #[trigger] s.contains(a) ==> all.contains(a),
    ensures
        s.len() <= all.len(),
{
    s.unique_seq_to_set();
    vstd::seq_lib::seq_to_set_is_finite(s);
    vstd::seq_lib::seq_to_set_is_finite(all);
    assert forall|a: A| #[trigger] s.to_set().contains(a) implies all.to_set().contains(a) by {
        assert(s.contains(a));
    }
    vstd::set_lib::lemma_len_subset(s.to_set(), all.to_set());
    all.lemma_cardinality_of_set();
}

} // verus!
