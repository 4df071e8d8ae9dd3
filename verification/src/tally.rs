//! Sums over sequences.

use vstd::prelude::*;

verus! {

/// The sum of the weights of all elements.
pub open spec fn tally<A>(s: Seq<A>, w: spec_fn(A) -> nat) -> nat
    decreases s.len(),
{
    if s.len() == 0 {
        0
    } else {
        tally(s.drop_last(), w) + w(s.last())
    }
}

/// Adding an element adds its weight.
pub proof fn lemma_tally_push<A>(s: Seq<A>, w: spec_fn(A) -> nat, a: A)
    ensures
        tally(s.push(a), w) == tally(s, w) + w(a),
{
    assert(s.push(a).drop_last() =~= s);
}

/// Replacing an element replaces its weight.
pub proof fn lemma_tally_update<A>(s: Seq<A>, w: spec_fn(A) -> nat, i: int, a: A)
    requires
        0 <= i < s.len(),
    ensures
        tally(s.update(i, a), w) + w(s[i]) == tally(s, w) + w(a),
    decreases s.len(),
{
    let t = s.update(i, a);
    if i == s.len() - 1 {
        assert(t.drop_last() =~= s.drop_last());
    } else {
        lemma_tally_update(s.drop_last(), w, i, a);
        assert(t.drop_last() =~= s.drop_last().update(i, a));
    }
}

/// Removing an element removes its weight.
pub proof fn lemma_tally_remove<A>(s: Seq<A>, w: spec_fn(A) -> nat, i: int)
    requires
        0 <= i < s.len(),
    ensures
        tally(s.remove(i), w) + w(s[i]) == tally(s, w),
    decreases s.len(),
{
    let t = s.remove(i);
    if i == s.len() - 1 {
        assert(t =~= s.drop_last());
    } else {
        lemma_tally_remove(s.drop_last(), w, i);
        assert(t.drop_last() =~= s.drop_last().remove(i));
        assert(t.last() == s.last());
    }
}

/// Elements of no weight have none together.
pub proof fn lemma_tally_zero<A>(s: Seq<A>, w: spec_fn(A) -> nat)
    requires
        forall|i: int| 0 <= i < s.len() ==> w(#[trigger] s[i]) == 0,
    ensures
        tally(s, w) == 0,
    decreases s.len(),
{
    if s.len() > 0 {
        assert forall|i: int| 0 <= i < s.drop_last().len() implies w(
            #[trigger] s.drop_last()[i],
        ) == 0 by {
            assert(w(s[i]) == 0);
        }
        lemma_tally_zero(s.drop_last(), w);
        assert(w(s[s.len() - 1]) == 0);
    }
}

/// Elements that weigh at most one each weigh at most their number.
pub proof fn lemma_tally_bound<A>(s: Seq<A>, w: spec_fn(A) -> nat)
    requires
        forall|a: A| #[trigger] w(a) <= 1,
    ensures
        tally(s, w) <= s.len(),
    decreases s.len(),
{
    if s.len() > 0 {
        lemma_tally_bound(s.drop_last(), w);
    }
}

} // verus!
