//! How long things took: the figures that a list of times comes down to.
use vstd::prelude::*;

verus! {

/// `v`, in ascending order, with `t` added behind every time that is not greater.
pub open spec fn insert_time(v: Seq<u64>, t: u64) -> Seq<u64>
    decreases v.len(),
{
    if v.len() > 0 && t < v.last() {
        insert_time(v.drop_last(), t).push(v.last())
    } else {
        v.push(t)
    }
}

/// `v` in ascending order.
pub open spec fn ascending(v: Seq<u64>) -> Seq<u64>
    decreases v.len(),
{
    if v.len() == 0 {
        v
    } else {
        insert_time(ascending(v.drop_last()), v.last())
    }
}

proof fn lemma_insert_time(v: Seq<u64>, t: u64, at: int)
    requires
        0 <= at <= v.len(),
        forall|k: int| at <= k < v.len() ==> t < #[trigger] v[k],
        at > 0 ==> v[at - 1] <= t,
    ensures
        insert_time(v, t) == v.insert(at, t),
    decreases v.len(),
{
    if at < v.len() {
        assert(v.last() == v[v.len() - 1]);
        lemma_insert_time(v.drop_last(), t, at);
        assert(v.insert(at, t) == v.drop_last().insert(at, t).push(v.last()));
    } else {
        assert(v.insert(at, t) == v.push(t));
    }
}

/// How many of `v` are greater than `limit`.
pub open spec fn count_over(v: Seq<u64>, limit: u64) -> nat
    decreases v.len(),
{
    if v.len() == 0 {
        0
    } else {
        count_over(v.drop_last(), limit) + if v.last() > limit {
            1nat
        } else {
            0nat
        }
    }
}

/// The time in the middle of `v`, the later one of two.
pub open spec fn middle(v: Seq<u64>) -> Option<u64> {
    if v.len() > 0 {
        Some(v[v.len() as int / 2])
    } else {
        None
    }
}

/// The last of `v`.
pub open spec fn highest(v: Seq<u64>) -> Option<u64> {
    if v.len() > 0 {
        Some(v.last())
    } else {
        None
    }
}

/// The time that stands `percent` of the way up `v`.
pub open spec fn part_way(v: Seq<u64>, percent: int) -> Option<u64> {
    if v.len() > 0 {
        Some(v[(v.len() - 1) * percent / 100])
    } else {
        None
    }
}

/// Times in nanoseconds, in ascending order.
pub struct Timings {
    sorted: Vec<u64>,
}

impl View for Timings {
    type V = Seq<u64>;

    closed spec fn view(&self) -> Seq<u64> {
        self.sorted@
    }
}

impl Timings {
    pub fn new(times: &Vec<u64>) -> (t: Self)
        ensures
            t@ == ascending(times@),
            t@.len() == times@.len(),
    {
        let mut sorted: Vec<u64> = Vec::new();
        assert(times@.take(0) == Seq::<u64>::empty());
        for i in 0..times.len()
            invariant
                sorted@ == ascending(times@.take(i as int)),
                sorted@.len() == i,
        {
            let t: u64 = times[i];
            let ghost before = sorted@;
            let mut at: usize = sorted.len();
            while at > 0 && t < sorted[at - 1]
                invariant
                    at <= sorted@.len(),
                    sorted@ == before,
                    forall|k: int| at <= k < before.len() ==> t < #[trigger] before[k],
                decreases at,
            {
                at = at - 1;
            }
            proof {
                lemma_insert_time(before, t, at as int);
                assert(times@.take(i + 1).drop_last() == times@.take(i as int));
            }
            sorted.insert(at, t);
        }
        assert(times@.take(times@.len() as int) == times@);
        Timings { sorted }
    }

    /// How many times there are.
    pub fn len(&self) -> (n: usize)
        ensures
            n == self@.len(),
    {
        self.sorted.len()
    }

    pub fn is_empty(&self) -> (r: bool)
        ensures
            r == (self@.len() == 0),
    {
        self.sorted.len() == 0
    }

    /// The time in the middle, the later one of two; `None` without any times.
    pub fn median(&self) -> (r: Option<u64>)
        ensures
            r == (if self@.len() > 0 {
                Some(self@[self@.len() as int / 2])
            } else {
                None
            }),
            r == middle(self@),
    {
        if self.sorted.len() == 0 {
            return None;
        }
        Some(self.sorted[self.sorted.len() / 2])
    }

    /// The longest time; `None` without any times.
    pub fn worst(&self) -> (r: Option<u64>)
        ensures
            r == (if self@.len() > 0 {
                Some(self@.last())
            } else {
                None
            }),
            r == highest(self@),
    {
        if self.sorted.len() == 0 {
            return None;
        }
        Some(self.sorted[self.sorted.len() - 1])
    }

    /// The time that stands `percent` of the way up the list; `None` without any times.
    pub fn at_percent(&self, percent: usize) -> (r: Option<u64>)
        requires
            percent <= 100,
        ensures
            r == (if self@.len() > 0 {
                Some(self@[(self@.len() - 1) * percent / 100])
            } else {
                None
            }),
            r == part_way(self@, percent as int),
    {
        if self.sorted.len() == 0 {
            return None;
        }
        let last: u128 = (self.sorted.len() - 1) as u128;
        proof {
            assert(0 <= last * percent <= last * 100) by (nonlinear_arith)
                requires
                    0 <= percent <= 100,
                    last >= 0,
            ;
        }
        let at: usize = (last * percent as u128 / 100) as usize;
        Some(self.sorted[at])
    }

    /// How many times are longer than `limit`.
    pub fn over(&self, limit: u64) -> (n: usize)
        ensures
            n == count_over(self@, limit),
    {
        let mut n: usize = 0;
        for i in 0..self.sorted.len()
            invariant
                n == count_over(self@.take(i as int), limit),
                n <= i,
        {
            assert(self@.take(i + 1).drop_last() == self@.take(i as int));
            if self.sorted[i] > limit {
                n = n + 1;
            }
        }
        assert(self@.take(self@.len() as int) == self@);
        n
    }
}

proof fn lemma_insert_ascends(v: Seq<u64>, t: u64)
    requires
        forall|i: int, j: int| 0 <= i < j < v.len() ==> v[i] <= v[j],
    ensures
        ({
            let r = insert_time(v, t);
            &&& forall|i: int, j: int| 0 <= i < j < r.len() ==> r[i] <= r[j]
            &&& forall|i: int| 0 <= i < r.len() ==> #[trigger] r[i] == t || v.contains(r[i])
            &&& r.to_multiset() == v.to_multiset().insert(t)
        }),
    decreases v.len(),
{
    broadcast use vstd::seq_lib::group_to_multiset_ensures;

    let r = insert_time(v, t);
    if v.len() > 0 && t < v.last() {
        let init = v.drop_last();
        lemma_insert_ascends(init, t);
        let s = insert_time(init, t);
        assert(v == init.push(v.last()));
        assert(r.to_multiset() =~= v.to_multiset().insert(t));
        assert forall|i: int| 0 <= i < r.len() implies #[trigger] r[i] == t || v.contains(r[i]) by {
            if i < s.len() {
                assert(r[i] == s[i]);
                if s[i] != t {
                    let k = choose|k: int| 0 <= k < init.len() && init[k] == s[i];
                    assert(v[k] == s[i]);
                }
            } else {
                assert(v[v.len() - 1] == r[i]);
            }
        }
        assert forall|i: int, j: int| 0 <= i < j < r.len() implies r[i] <= r[j] by {
            assert(r[i] == s[i]);
            if j < s.len() {
                assert(r[j] == s[j]);
            } else if s[i] != t {
                let k = choose|k: int| 0 <= k < init.len() && init[k] == s[i];
                assert(v[k] <= v[v.len() - 1]);
            }
        }
    } else {
        assert forall|i: int| 0 <= i < r.len() implies #[trigger] r[i] == t || v.contains(r[i]) by {
            if i < v.len() {
                assert(v[i] == r[i]);
            }
        }
        assert forall|i: int, j: int| 0 <= i < j < r.len() implies r[i] <= r[j] by {
            if j == v.len() && i < v.len() - 1 {
                assert(v[i] <= v[v.len() - 1]);
            }
        }
    }
}

/// Sorting times loses none and puts them in ascending order, so the median is a time that was
/// measured, and no measured time is longer than the worst.
pub proof fn law_timings_are_sorted(v: Seq<u64>)
    ensures
        ascending(v).to_multiset() == v.to_multiset(),
        forall|i: int, j: int|
            0 <= i < j < ascending(v).len() ==> ascending(v)[i] <= ascending(v)[j],
    decreases v.len(),
{
    broadcast use vstd::seq_lib::group_to_multiset_ensures;

    if v.len() > 0 {
        let init = v.drop_last();
        law_timings_are_sorted(init);
        lemma_insert_ascends(ascending(init), v.last());
        assert(v == init.push(v.last()));
    }
}

/// As many times lie at or below the median as at or above it, or one more; none is longer than
/// the worst; and those a part of the way up lie between the shortest and the worst, which stand
/// at either end.
pub proof fn law_median_stands_in_the_middle(times: Seq<u64>, i: int, percent: int)
    requires
        0 <= i < times.len(),
        0 <= percent <= 100,
    ensures
        ({
            let v = ascending(times);
            let n = v.len() as int;
            &&& n == times.len()
            &&& middle(v) is Some && highest(v) is Some && part_way(v, percent) is Some
            &&& times.contains(middle(v)->0)
            &&& times.contains(highest(v)->0)
            &&& times[i] <= highest(v)->0
            &&& forall|k: int| 0 <= k < n && 2 * k <= n ==> #[trigger] v[k] <= middle(v)->0
            &&& forall|k: int| 0 <= k < n && 2 * k >= n ==> #[trigger] v[k] >= middle(v)->0
            &&& part_way(v, 0) == Some(v[0])
            &&& part_way(v, 100) == highest(v)
            &&& v[0] <= part_way(v, percent)->0 <= highest(v)->0
        }),
        middle(Seq::empty()) is None,
        highest(Seq::empty()) is None,
        part_way(Seq::empty(), percent) is None,
{
    broadcast use vstd::seq_lib::group_to_multiset_ensures;

    let v = ascending(times);
    law_timings_are_sorted(times);
    assert(v.to_multiset().len() == times.to_multiset().len());
    let n = v.len() as int;
    assert(times.contains(times[i]));
    assert(times.to_multiset().count(times[i]) > 0);
    assert(v.contains(times[i]));
    let k = choose|k: int| 0 <= k < v.len() && v[k] == times[i];
    if k < n - 1 {
        assert(v[k] <= v[n - 1]);
    }
    assert(v.contains(v[n / 2]) && v.contains(v[n - 1]));
    assert(v.to_multiset().count(v[n / 2]) > 0 && v.to_multiset().count(v[n - 1]) > 0);
    assert forall|k: int| 0 <= k < n && 2 * k <= n implies #[trigger] v[k] <= v[n / 2] by {
        if k < n / 2 {
            assert(v[k] <= v[n / 2]);
        }
    }
    assert forall|k: int| 0 <= k < n && 2 * k >= n implies #[trigger] v[k] >= v[n / 2] by {
        if k > n / 2 {
            assert(v[n / 2] <= v[k]);
        }
    }
    let at = (n - 1) * percent / 100;
    assert(0 <= at <= n - 1) by (nonlinear_arith)
        requires
            at == (n - 1) * percent / 100,
            0 <= percent <= 100,
            n >= 1,
    ;
    if at > 0 {
        assert(v[0] <= v[at]);
    }
    if at < n - 1 {
        assert(v[at] <= v[n - 1]);
    }
    assert((n - 1) * 0 / 100 == 0 && (n - 1) * 100 / 100 == n - 1);
}

/// A time counts as over the limit if, and only if, it is longer.
pub proof fn law_longer_times_are_over(v: Seq<u64>, t: u64, limit: u64)
    ensures
        count_over(Seq::empty(), limit) == 0,
        t > limit ==> count_over(v.push(t), limit) == count_over(v, limit) + 1,
        t <= limit ==> count_over(v.push(t), limit) == count_over(v, limit),
{
    assert(v.push(t).drop_last() == v);
}

} // verus!
