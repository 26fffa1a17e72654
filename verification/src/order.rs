//! Stable ordering of positions by an integer key.
//!
//! Every sort of the library goes through [`stable_order`]: the caller lists
//! one key per item and gets back the positions in ascending key order, equal
//! keys in their first order.
use vstd::prelude::*;

verus! {

/// A sort key: compared by the first number, then by the second.
pub type SortKey = (i128, u128);

/// Strict order of two keys.
pub open spec fn key_less(a: SortKey, b: SortKey) -> bool {
    a.0 < b.0 || (a.0 == b.0 && a.1 < b.1)
}

/// Position `i` comes before position `j`: a smaller key, or an equal key and
/// an earlier position.
pub open spec fn comes_before(keys: Seq<SortKey>, i: int, j: int) -> bool {
    key_less(keys[i], keys[j]) || (keys[i] == keys[j] && i < j)
}

/// `order` lists every position of `keys` exactly once, each before the next.
pub open spec fn is_stable_order(keys: Seq<SortKey>, order: Seq<usize>) -> bool {
    &&& order.len() == keys.len()
    &&& forall|i: int| 0 <= i < order.len() ==> (#[trigger] order[i]) < keys.len()
    &&& forall|k: usize| k < keys.len() ==> #[trigger] order.contains(k)
    &&& forall|i: int, j: int|
        0 <= i < j < order.len() ==> comes_before(
            keys,
            (#[trigger] order[i]) as int,
            (#[trigger] order[j]) as int,
        )
}

/// The stable order of `keys`.
pub open spec fn the_order(keys: Seq<SortKey>) -> Seq<usize> {
    choose|order: Seq<usize>| is_stable_order(keys, order)
}

/// The items of `s` in ascending order of their keys, equal keys in their first
/// order.
pub open spec fn sorted_by<T>(s: Seq<T>, keys: Seq<SortKey>) -> Seq<T> {
    Seq::new(keys.len(), |i: int| s[the_order(keys)[i] as int])
}

spec fn ascending(keys: Seq<SortKey>, s: Seq<usize>) -> bool {
    forall|i: int, j: int|
        0 <= i < j < s.len() ==> comes_before(
            keys,
            (#[trigger] s[i]) as int,
            (#[trigger] s[j]) as int,
        )
}

spec fn within(s: Seq<usize>, lo: int, hi: int) -> bool {
    forall|i: int| 0 <= i < s.len() ==> lo <= (#[trigger] s[i]) < hi
}

fn key_at_most(a: SortKey, b: SortKey) -> (r: bool)
    ensures
        r == !key_less(b, a),
{
    a.0 < b.0 || (a.0 == b.0 && a.1 <= b.1)
}

fn merge_runs(keys: &Vec<SortKey>, a: &Vec<usize>, b: &Vec<usize>, lo: usize, mid: usize, hi: usize) -> (out:
    Vec<usize>)
    requires
        lo <= mid <= hi <= keys.len(),
        a.len() == mid - lo,
        b.len() == hi - mid,
        within(a@, lo as int, mid as int),
        within(b@, mid as int, hi as int),
        ascending(keys@, a@),
        ascending(keys@, b@),
    ensures
        out.len() == hi - lo,
        within(out@, lo as int, hi as int),
        ascending(keys@, out@),
        forall|k: usize| a@.contains(k) || b@.contains(k) ==> #[trigger] out@.contains(k),
{
    let mut out: Vec<usize> = Vec::new();
    let mut i: usize = 0;
    let mut j: usize = 0;
    while i < a.len() || j < b.len()
        invariant
            lo <= mid <= hi <= keys.len(),
            a.len() == mid - lo,
            b.len() == hi - mid,
            within(a@, lo as int, mid as int),
            within(b@, mid as int, hi as int),
            ascending(keys@, a@),
            ascending(keys@, b@),
            i <= a.len(),
            j <= b.len(),
            out.len() == i + j,
            within(out@, lo as int, hi as int),
            ascending(keys@, out@),
            forall|p: int, q: int|
                0 <= p < out.len() && i <= q < a.len() ==> comes_before(
                    keys@,
                    (#[trigger] out@[p]) as int,
                    (#[trigger] a@[q]) as int,
                ),
            forall|p: int, q: int|
                0 <= p < out.len() && j <= q < b.len() ==> comes_before(
                    keys@,
                    (#[trigger] out@[p]) as int,
                    (#[trigger] b@[q]) as int,
                ),
            forall|p: int| 0 <= p < i ==> out@.contains(#[trigger] a@[p]),
            forall|p: int| 0 <= p < j ==> out@.contains(#[trigger] b@[p]),
        decreases a.len() - i + b.len() - j,
    {
        let from_a: bool = if i < a.len() {
            if j < b.len() {
                key_at_most(keys[a[i]], keys[b[j]])
            } else {
                true
            }
        } else {
            false
        };
        let ghost prev = out@;
        if from_a {
            let next: usize = a[i];
            out.push(next);
            i = i + 1;
            assert(out@[prev.len() as int] == next);
        } else {
            let next: usize = b[j];
            out.push(next);
            j = j + 1;
            assert(out@[prev.len() as int] == next);
        }
        assert forall|p: int| 0 <= p < i implies out@.contains(#[trigger] a@[p]) by {
            if prev.contains(a@[p]) {
                let w = choose|w: int| 0 <= w < prev.len() && prev[w] == a@[p];
                assert(out@[w] == a@[p]);
            }
        }
        assert forall|p: int| 0 <= p < j implies out@.contains(#[trigger] b@[p]) by {
            if prev.contains(b@[p]) {
                let w = choose|w: int| 0 <= w < prev.len() && prev[w] == b@[p];
                assert(out@[w] == b@[p]);
            }
        }
    }
    out
}

fn order_range(keys: &Vec<SortKey>, lo: usize, hi: usize) -> (out: Vec<usize>)
    requires
        lo <= hi <= keys.len(),
    ensures
        out.len() == hi - lo,
        within(out@, lo as int, hi as int),
        ascending(keys@, out@),
        forall|k: usize| lo <= k < hi ==> #[trigger] out@.contains(k),
    decreases hi - lo,
{
    if hi - lo <= 1 {
        let mut out: Vec<usize> = Vec::new();
        if lo < hi {
            out.push(lo);
            assert(out@[0] == lo);
        }
        return out;
    }
    let mid: usize = lo + (hi - lo) / 2;
    let a = order_range(keys, lo, mid);
    let b = order_range(keys, mid, hi);
    merge_runs(keys, &a, &b, lo, mid, hi)
}

/// The positions of `keys` in ascending key order, equal keys in their first
/// order.
pub fn stable_order(keys: &Vec<SortKey>) -> (order: Vec<usize>)
    ensures
        is_stable_order(keys@, order@),
        order@ == the_order(keys@),
{
    let order = order_range(keys, 0, keys.len());
    proof {
        stable_order_is_unique(keys@, order@, the_order(keys@));
    }
    order
}

/// Two stable orders of the same keys are the same list.
pub proof fn stable_order_is_unique(keys: Seq<SortKey>, a: Seq<usize>, b: Seq<usize>)
    requires
        is_stable_order(keys, a),
        is_stable_order(keys, b),
    ensures
        a == b,
{
    assert forall|n: nat| n <= a.len() implies #[trigger] a.take(n as int) == b.take(n as int) by {
        stable_prefixes_agree(keys, a, b, n);
    }
    assert(a.take(a.len() as int) == b.take(a.len() as int));
    assert(a.take(a.len() as int) =~= a);
    assert(b.take(a.len() as int) =~= b);
}

proof fn stable_prefixes_agree(keys: Seq<SortKey>, a: Seq<usize>, b: Seq<usize>, n: nat)
    requires
        is_stable_order(keys, a),
        is_stable_order(keys, b),
        n <= a.len(),
    ensures
        a.take(n as int) == b.take(n as int),
    decreases n,
{
    if n > 0 {
        let m = (n - 1) as int;
        stable_prefixes_agree(keys, a, b, (n - 1) as nat);
        assert forall|p: int| 0 <= p < m implies a[p] == b[p] by {
            assert(a.take(m)[p] == b.take(m)[p]);
        }
        // a[m] occurs in b at or after m, b[m] occurs in a at or after m.
        assert(b.contains(a[m]));
        let q = choose|q: int| 0 <= q < b.len() && b[q] == a[m];
        assert(a.contains(b[m]));
        let p = choose|p: int| 0 <= p < a.len() && a[p] == b[m];
        if q < m {
            assert(a[q] == a[m]);
            assert(comes_before(keys, a[q] as int, a[m] as int));
        }
        if p < m {
            assert(b[p] == b[m]);
            assert(comes_before(keys, b[p] as int, b[m] as int));
        }
        if a[m] != b[m] {
            assert(comes_before(keys, b[m] as int, b[q] as int));
            assert(comes_before(keys, a[m] as int, a[p] as int));
        }
        assert(a.take(n as int) =~= b.take(n as int));
    }
}

/// Keys that a machine can hold have a stable order.
pub proof fn stable_order_exists(keys: Seq<SortKey>)
    requires
        keys.len() <= usize::MAX,
    ensures
        is_stable_order(keys, the_order(keys)),
    decreases keys.len(),
{
    if keys.len() == 0 {
        assert(is_stable_order(keys, Seq::<usize>::empty()));
    } else {
        let n = (keys.len() - 1) as usize;
        let less = keys.drop_last();
        stable_order_exists(less);
        let old_order = the_order(less);
        let at = insertion_point(keys, old_order, old_order.len());
        insertion_point_splits(keys, old_order, old_order.len());
        let order = old_order.insert(at, n);
        assert forall|k: usize| k < keys.len() implies #[trigger] order.contains(k) by {
            if k == n {
                assert(order[at] == n);
            } else {
                assert(old_order.contains(k));
                let i = choose|i: int| 0 <= i < old_order.len() && old_order[i] == k;
                if i < at {
                    assert(order[i] == k);
                } else {
                    assert(order[i + 1] == k);
                }
            }
        }
        assert forall|i: int, j: int| 0 <= i < j < order.len() implies comes_before(
            keys,
            (#[trigger] order[i]) as int,
            (#[trigger] order[j]) as int,
        ) by {
            let a = if i < at {
                i
            } else {
                i - 1
            };
            let b = if j < at {
                j
            } else {
                j - 1
            };
            if i != at && j != at {
                assert(order[i] == old_order[a]);
                assert(order[j] == old_order[b]);
                assert(comes_before(less, old_order[a] as int, old_order[b] as int));
            } else if j == at {
                assert(order[i] == old_order[i]);
            } else {
                assert(order[j] == old_order[b]);
            }
        }
        assert(is_stable_order(keys, order));
    }
}

/// How many of the first `n` positions of `order` have a key that is not
/// larger than the last key.
spec fn insertion_point(keys: Seq<SortKey>, order: Seq<usize>, n: nat) -> int
    decreases n,
{
    if n == 0 {
        0
    } else if key_less(keys.last(), keys[order[n - 1] as int]) {
        insertion_point(keys, order, (n - 1) as nat)
    } else {
        n as int
    }
}

proof fn insertion_point_splits(keys: Seq<SortKey>, order: Seq<usize>, n: nat)
    requires
        keys.len() > 0,
        is_stable_order(keys.drop_last(), order),
        n <= order.len(),
        forall|i: int| n <= i < order.len() ==> key_less(keys.last(), keys[(#[trigger] order[i]) as int]),
    ensures
        0 <= insertion_point(keys, order, n) <= n,
        forall|i: int|
            0 <= i < insertion_point(keys, order, n) ==> !key_less(
                keys.last(),
                keys[(#[trigger] order[i]) as int],
            ),
        forall|i: int|
            insertion_point(keys, order, n) <= i < order.len() ==> key_less(
                keys.last(),
                keys[(#[trigger] order[i]) as int],
            ),
    decreases n,
{
    if n > 0 {
        if key_less(keys.last(), keys[order[n - 1] as int]) {
            insertion_point_splits(keys, order, (n - 1) as nat);
        } else {
            let less = keys.drop_last();
            assert forall|i: int| 0 <= i < n implies !key_less(
                keys.last(),
                keys[(#[trigger] order[i]) as int],
            ) by {
                if i < n - 1 {
                    assert(comes_before(less, order[i] as int, order[n - 1] as int));
                }
            }
        }
    }
}

/// In a sorted sequence a key is never followed by a smaller one.
pub proof fn sorted_by_ascends(keys: Seq<SortKey>, i: int, j: int)
    requires
        keys.len() <= usize::MAX,
        0 <= i < j < keys.len(),
    ensures
        !key_less(sorted_by(keys, keys)[j], sorted_by(keys, keys)[i]),
{
    stable_order_exists(keys);
    assert(comes_before(keys, the_order(keys)[i] as int, the_order(keys)[j] as int));
}

/// The items of `s` at the listed places.
spec fn taken<T>(s: Seq<T>, places: Seq<usize>) -> Seq<T> {
    Seq::new(places.len(), |i: int| s[places[i] as int])
}

proof fn taking_all_keeps_items<T>(s: Seq<T>, places: Seq<usize>)
    requires
        s.len() <= usize::MAX,
        places.len() == s.len(),
        forall|i: int| 0 <= i < places.len() ==> (#[trigger] places[i]) < s.len(),
        forall|i: int, j: int| 0 <= i < j < places.len() ==> (#[trigger] places[i]) != (#[trigger] places[j]),
        forall|k: usize| k < s.len() ==> #[trigger] places.contains(k),
    ensures
        taken(s, places).to_multiset() =~= s.to_multiset(),
    decreases s.len(),
{
    let out = taken(s, places);
    if s.len() == 0 {
        assert(out =~= s);
    } else {
        let n = (s.len() - 1) as usize;
        assert(places.contains(n));
        let p = choose|p: int| 0 <= p < places.len() && places[p] == n;
        let fewer = places.remove(p);
        let less = s.drop_last();
        assert forall|i: int| 0 <= i < fewer.len() implies (#[trigger] fewer[i]) < less.len() by {
            let q = if i < p {
                i
            } else {
                i + 1
            };
            assert(fewer[i] == places[q]);
            assert(places[q] != places[p]);
        }
        assert forall|k: usize| k < less.len() implies #[trigger] fewer.contains(k) by {
            assert(places.contains(k));
            let q = choose|q: int| 0 <= q < places.len() && places[q] == k;
            if q < p {
                assert(fewer[q] == k);
            } else {
                assert(fewer[q - 1] == k);
            }
        }
        taking_all_keeps_items(less, fewer);
        assert(taken(less, fewer) =~= out.remove(p));
        out.to_multiset_ensures();
        less.to_multiset_ensures();
        assert(s =~= less.push(s.last()));
        assert(out[p] == s.last());
        assert(out.contains(out[p]));
        assert(out.to_multiset() =~= out.remove(p).to_multiset().insert(out[p]));
    }
}

/// A sorted sequence holds exactly the items that were sorted.
pub proof fn sorted_by_keeps_items<T>(s: Seq<T>, keys: Seq<SortKey>)
    requires
        keys.len() <= usize::MAX,
        s.len() == keys.len(),
    ensures
        sorted_by(s, keys).len() == s.len(),
        forall|x: T| sorted_by(s, keys).contains(x) == s.contains(x),
        sorted_by(s, keys).to_multiset() =~= s.to_multiset(),
{
    stable_order_exists(keys);
    let order = the_order(keys);
    let out = sorted_by(s, keys);
    assert forall|i: int, j: int| 0 <= i < j < order.len() implies (#[trigger] order[i]) != (
    #[trigger] order[j]) by {
        assert(comes_before(keys, order[i] as int, order[j] as int));
    }
    taking_all_keeps_items(s, order);
    assert(out =~= taken(s, order));
    assert forall|x: T| out.contains(x) == s.contains(x) by {
        if out.contains(x) {
            let i = choose|i: int| 0 <= i < out.len() && out[i] == x;
            assert(s[order[i] as int] == x);
        }
        if s.contains(x) {
            let k = choose|k: int| 0 <= k < s.len() && s[k] == x;
            assert(order.contains(k as usize));
            let i = choose|i: int| 0 <= i < order.len() && order[i] == k as usize;
            assert(out[i] == x);
        }
    }
}

/// Sorting by keys rearranges the items: each comes once, by the first part of
/// its key, then by the second, and items with the same key stay in the order
/// that they had.
pub proof fn sorting_is_stable<T>(s: Seq<T>, keys: Seq<SortKey>)
    requires
        keys.len() <= usize::MAX,
        s.len() == keys.len(),
    ensures
        exists|order: Seq<usize>|
            {
                &&& order.len() == s.len()
                &&& #[trigger] order.no_duplicates()
                &&& forall|i: int| 0 <= i < order.len() ==> (#[trigger] order[i]) < s.len()
                &&& forall|i: int, j: int|
                    0 <= i < j < order.len() ==> {
                        let a = keys[(#[trigger] order[i]) as int];
                        let b = keys[(#[trigger] order[j]) as int];
                        a.0 < b.0 || (a.0 == b.0 && (a.1 < b.1 || (a.1 == b.1 && order[i] < order[j])))
                    }
                &&& sorted_by(s, keys).len() == s.len()
                &&& forall|i: int|
                    0 <= i < order.len() ==> sorted_by(s, keys)[i] == s[(#[trigger] order[i]) as int]
            },
{
    stable_order_exists(keys);
    let order = the_order(keys);
    assert forall|i: int, j: int| 0 <= i < j < order.len() implies {
        let a = keys[(#[trigger] order[i]) as int];
        let b = keys[(#[trigger] order[j]) as int];
        a.0 < b.0 || (a.0 == b.0 && (a.1 < b.1 || (a.1 == b.1 && order[i] < order[j])))
    } by {
        assert(comes_before(keys, order[i] as int, order[j] as int));
    }
    assert(order.no_duplicates()) by {
        assert forall|i: int, j: int| 0 <= i < order.len() && 0 <= j < order.len() && i != j implies order[i]
            != order[j] by {
            if i < j {
                assert(comes_before(keys, order[i] as int, order[j] as int));
            } else {
                assert(comes_before(keys, order[j] as int, order[i] as int));
            }
        }
    }
}

} // verus!
