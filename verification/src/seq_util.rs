use vstd::prelude::*;

verus! {

broadcast use vstd::seq_lib::group_to_multiset_ensures;

/// Removing an element by swapping the last element into its place keeps all
/// the other elements: as a multiset, exactly the chosen element is gone.
pub proof fn lemma_swap_remove_to_multiset<A>(s: Seq<A>, i: int)
    requires
        0 <= i < s.len(),
    ensures
        s.update(i, s.last()).drop_last().to_multiset() == s.to_multiset().remove(s[i]),
{
    let u = s.update(i, s.last());
    assert(u.remove(i) =~= s.remove(i));
    assert(u.remove(i).to_multiset() == u.to_multiset().remove(u[i]));
    assert(s.remove(i).to_multiset() == s.to_multiset().remove(s[i]));
    assert(u.contains(u[i]));
    assert(u.to_multiset().count(u[i]) > 0);
    assert(u.to_multiset() =~= u.to_multiset().remove(u[i]).insert(u[i]));
    assert(u[i] == s.last());
    assert(u.to_multiset() =~= s.to_multiset().remove(s[i]).insert(s.last()));
    let n = s.len() as int;
    assert(u.drop_last() =~= u.remove(n - 1));
    assert(u.remove(n - 1).to_multiset() == u.to_multiset().remove(u[n - 1]));
    assert(u[n - 1] == s.last());
    assert(u.to_multiset().remove(s.last()) =~= s.to_multiset().remove(s[i]));
}

/// Concatenating two sequences joins their multisets.
pub proof fn lemma_concat_to_multiset<A>(a: Seq<A>, b: Seq<A>)
    ensures
        (a + b).to_multiset() == a.to_multiset().add(b.to_multiset()),
    decreases b.len(),
{
    if b.len() == 0 {
        assert(a + b =~= a);
        assert(b.to_multiset().len() == 0);
        assert(a.to_multiset().add(b.to_multiset()) =~= a.to_multiset());
    } else {
        lemma_concat_to_multiset(a, b.drop_last());
        assert(a + b =~= (a + b.drop_last()).push(b.last()));
        assert((a + b.drop_last()).push(b.last()).to_multiset() =~= (a
            + b.drop_last()).to_multiset().insert(b.last()));
        assert(b.drop_last().push(b.last()) =~= b);
        assert(b.drop_last().push(b.last()).to_multiset() =~= b.drop_last().to_multiset().insert(
            b.last(),
        ));
        assert((a + b).to_multiset() =~= a.to_multiset().add(b.to_multiset()));
    }
}

/// How many times an element occurs in a filtered sequence: as often as in
/// the sequence itself when it passes the predicate, and not at all otherwise.
pub proof fn lemma_filter_to_multiset_count<A>(s: Seq<A>, pred: spec_fn(A) -> bool, x: A)
    ensures
        s.filter(pred).to_multiset().count(x) == if pred(x) {
            s.to_multiset().count(x)
        } else {
            0
        },
    decreases s.len(),
{
    reveal(Seq::filter);
    if s.len() == 0 {
    } else {
        let prefix = s.drop_last();
        lemma_filter_to_multiset_count(prefix, pred, x);
        assert(prefix.push(s.last()) =~= s);
        assert(prefix.push(s.last()).to_multiset() =~= prefix.to_multiset().insert(s.last()));
        if pred(s.last()) {
            assert(s.filter(pred) == prefix.filter(pred).push(s.last()));
            assert(prefix.filter(pred).push(s.last()).to_multiset() =~= prefix.filter(
                pred,
            ).to_multiset().insert(s.last()));
        } else {
            assert(s.filter(pred) == prefix.filter(pred));
        }
    }
}

} // verus!
