//! Tables keyed by an index.
use std::collections::HashMap;
use vstd::prelude::*;

verus! {

broadcast use vstd::std_specs::hash::group_hash_axioms;

/// The indices of a table, each once, in no particular order.
pub fn indices<V>(m: &HashMap<usize, V>) -> (r: Vec<usize>)
    ensures
        r@.no_duplicates(),
        r@.to_set() == m@.dom(),
{
    let mut r: Vec<usize> = Vec::new();
    for k in it: m.keys()
        invariant
            r@ == it.seq().unref().take(it.index() as int),
            it.seq().unref().to_set() == m@.dom(),
            it.seq().no_duplicates(),
    {
        r.push(*k);
        assert(it.seq().unref().take(it.index() as int + 1) == it.seq().unref().take(
            it.index() as int,
        ).push(*k));
    }
    proof {
        let keys = vstd::std_specs::iter::IteratorSpec::remaining(
            &vstd::std_specs::hash::spec_keys_iter(m),
        );
        assert(r@ == keys.unref());
        assert forall|i: int, j: int| 0 <= i < r@.len() && 0 <= j < r@.len() && i != j implies r@[i]
            != r@[j] by {
            assert(keys[i] != keys[j]);
        }
    }
    r
}

/// The first `k + 1` keys are the first `k` and one more.
pub proof fn lemma_taken(keys: Seq<usize>, k: int)
    requires
        0 <= k < keys.len(),
    ensures
        keys.take(k + 1) == keys.take(k).push(keys[k]),
        forall|j: usize| #[trigger]
            keys.take(k + 1).contains(j) <==> keys.take(k).contains(j) || j == keys[k],
{
    let (now, next) = (keys.take(k), keys.take(k + 1));
    assert(next == now.push(keys[k]));
    assert forall|j: usize| #[trigger] next.contains(j) <==> now.contains(j) || j == keys[k] by {
        if next.contains(j) {
            let n = choose|n: int| 0 <= n < next.len() && next[n] == j;
            if n < k {
                assert(now[n] == j);
            }
        }
        if now.contains(j) {
            let n = choose|n: int| 0 <= n < now.len() && now[n] == j;
            assert(next[n] == j);
        }
        assert(next[k] == keys[k]);
    }
}

/// What a list holds once `i` is added to it.
pub proof fn lemma_pushed(list: Seq<usize>, i: usize)
    ensures
        forall|j: usize| #[trigger] list.push(i).contains(j) <==> list.contains(j) || j == i,
        list.no_duplicates() && !list.contains(i) ==> list.push(i).no_duplicates(),
{
    let next = list.push(i);
    assert forall|j: usize| #[trigger] next.contains(j) <==> list.contains(j) || j == i by {
        if next.contains(j) {
            let n = choose|n: int| 0 <= n < next.len() && next[n] == j;
            if n < list.len() {
                assert(list[n] == j);
            }
        }
        if list.contains(j) {
            let n = choose|n: int| 0 <= n < list.len() && list[n] == j;
            assert(next[n] == j);
        }
        assert(next[list.len() as int] == i);
    }
}

} // verus!
