//! Facts about filtering and mapping sequences that the topology proofs share.

use vstd::prelude::*;

verus! {

/// Filtering the empty sequence leaves it empty.
pub proof fn lemma_filter_none<A>(s: Seq<A>, keep: spec_fn(A) -> bool)
    requires
        s.len() == 0,
    ensures
        s.filter(keep) == s,
{
    reveal(Seq::filter);
}

/// Filtering decides on the last element and filters the rest.
pub proof fn lemma_filter_last<A>(s: Seq<A>, keep: spec_fn(A) -> bool)
    requires
        s.len() > 0,
    ensures
        s.filter(keep) == if keep(s.last()) {
            s.drop_last().filter(keep).push(s.last())
        } else {
            s.drop_last().filter(keep)
        },
{
    assert(s =~= s.drop_last().push(s.last()));
    s.drop_last().lemma_filter_push(s.last(), keep);
}

/// Where each kept element of a filtered sequence came from: the result gives,
/// for each position of `s.filter(keep)`, its position in `s`. Positions rise,
/// and every element of `s` that `keep` accepts is reached.
pub proof fn lemma_filter_origin<A>(s: Seq<A>, keep: spec_fn(A) -> bool) -> (origin: Seq<int>)
    ensures
        origin.len() == s.filter(keep).len(),
        forall|i: int|
            0 <= i < origin.len() ==> 0 <= #[trigger] origin[i] < s.len() && s.filter(keep)[i]
                == s[origin[i]] && keep(s[origin[i]]),
        forall|i: int, j: int| 0 <= i < j < origin.len() ==> #[trigger] origin[i] < #[trigger] origin[j],
        forall|k: int|
            0 <= k < s.len() && keep(#[trigger] s[k]) ==> exists|i: int|
                0 <= i < origin.len() && #[trigger] origin[i] == k,
    decreases s.len(),
{
    if s.len() == 0 {
        lemma_filter_none(s, keep);
        Seq::empty()
    } else {
        lemma_filter_last(s, keep);
        let rest = s.drop_last();
        let before = lemma_filter_origin(rest, keep);
        let origin = if keep(s.last()) {
            before.push(s.len() - 1)
        } else {
            before
        };
        assert forall|k: int| 0 <= k < s.len() && keep(#[trigger] s[k]) implies exists|i: int|
            0 <= i < origin.len() && #[trigger] origin[i] == k by {
            if k < s.len() - 1 {
                assert(keep(rest[k]));
                let i = choose|i: int| 0 <= i < before.len() && #[trigger] before[i] == k;
                assert(origin[i] == k);
            } else {
                assert(origin[origin.len() - 1] == k);
            }
        }
        origin
    }
}

/// A filter that accepts every element changes nothing.
pub proof fn lemma_filter_keeps_all<A>(s: Seq<A>, keep: spec_fn(A) -> bool)
    requires
        forall|i: int| 0 <= i < s.len() ==> keep(#[trigger] s[i]),
    ensures
        s.filter(keep) == s,
    decreases s.len(),
{
    if s.len() == 0 {
        lemma_filter_none(s, keep);
    } else {
        lemma_filter_last(s, keep);
        lemma_filter_keeps_all(s.drop_last(), keep);
        assert(s.drop_last().push(s.last()) =~= s);
    }
}

/// A filter that rejects every element leaves nothing.
pub proof fn lemma_filter_drops_all<A>(s: Seq<A>, keep: spec_fn(A) -> bool)
    requires
        forall|i: int| 0 <= i < s.len() ==> !keep(#[trigger] s[i]),
    ensures
        s.filter(keep) == Seq::<A>::empty(),
    decreases s.len(),
{
    if s.len() == 0 {
        lemma_filter_none(s, keep);
        assert(s =~= Seq::<A>::empty());
    } else {
        lemma_filter_last(s, keep);
        lemma_filter_drops_all(s.drop_last(), keep);
    }
}

/// A filter that rejects the element at `at` and no other removes just that one.
pub proof fn lemma_filter_drops_one<A>(s: Seq<A>, keep: spec_fn(A) -> bool, at: int)
    requires
        0 <= at < s.len(),
        !keep(s[at]),
        forall|i: int| 0 <= i < s.len() && i != at ==> keep(#[trigger] s[i]),
    ensures
        s.filter(keep) == s.remove(at),
    decreases s.len(),
{
    lemma_filter_last(s, keep);
    let rest = s.drop_last();
    if at == s.len() - 1 {
        lemma_filter_keeps_all(rest, keep);
        assert(s.remove(at) =~= rest);
    } else {
        lemma_filter_drops_one(rest, keep, at);
        assert(rest.remove(at).push(s.last()) =~= s.remove(at));
    }
}

/// Filtering a mapped sequence is mapping the filtered one, where the mapping
/// does not change what the filter decides.
pub proof fn lemma_filter_of_map<A>(s: Seq<A>, change: spec_fn(A) -> A, keep: spec_fn(A) -> bool)
    requires
        forall|a: A| keep(#[trigger] change(a)) == keep(a),
    ensures
        s.map_values(change).filter(keep) == s.filter(keep).map_values(change),
    decreases s.len(),
{
    let mapped = s.map_values(change);
    if s.len() == 0 {
        lemma_filter_none(s, keep);
        lemma_filter_none(mapped, keep);
        assert(mapped =~= s.map_values(change));
        assert(s.filter(keep).map_values(change) =~= mapped.filter(keep));
    } else {
        lemma_filter_last(s, keep);
        lemma_filter_last(mapped, keep);
        lemma_filter_of_map(s.drop_last(), change, keep);
        assert(mapped.drop_last() =~= s.drop_last().map_values(change));
        assert(mapped.last() == change(s.last()));
        if keep(s.last()) {
            assert(s.drop_last().filter(keep).push(s.last()).map_values(change) =~= s.drop_last().filter(
                keep,
            ).map_values(change).push(change(s.last())));
        }
    }
}

/// Two filters can be applied in either order.
pub proof fn lemma_filters_commute<A>(s: Seq<A>, first: spec_fn(A) -> bool, second: spec_fn(A) -> bool)
    ensures
        s.filter(first).filter(second) == s.filter(second).filter(first),
    decreases s.len(),
{
    if s.len() == 0 {
        lemma_filter_none(s, first);
        lemma_filter_none(s, second);
    } else {
        let rest = s.drop_last();
        lemma_filter_last(s, first);
        lemma_filter_last(s, second);
        lemma_filters_commute(rest, first, second);
        rest.filter(first).lemma_filter_push(s.last(), second);
        rest.filter(second).lemma_filter_push(s.last(), first);
    }
}

/// Filtering twice by the same test is filtering once.
pub proof fn lemma_filter_again<A>(s: Seq<A>, keep: spec_fn(A) -> bool)
    ensures
        s.filter(keep).filter(keep) == s.filter(keep),
{
    let origin = lemma_filter_origin(s, keep);
    lemma_filter_keeps_all(s.filter(keep), keep);
}

/// Filtering by one test and then by another is filtering by both at once.
pub proof fn lemma_filter_both<A>(
    s: Seq<A>,
    first: spec_fn(A) -> bool,
    second: spec_fn(A) -> bool,
    both: spec_fn(A) -> bool,
)
    requires
        forall|a: A| #[trigger] both(a) == (first(a) && second(a)),
    ensures
        s.filter(first).filter(second) == s.filter(both),
    decreases s.len(),
{
    if s.len() == 0 {
        lemma_filter_none(s, first);
        lemma_filter_none(s, second);
        lemma_filter_none(s, both);
    } else {
        let rest = s.drop_last();
        lemma_filter_last(s, first);
        lemma_filter_last(s, both);
        lemma_filter_both(rest, first, second, both);
        rest.filter(first).lemma_filter_push(s.last(), second);
    }
}

} // verus!
