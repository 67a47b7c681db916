//! Stable ordering of positions by key: what it is, that there is exactly
//! one, and a merge sort that computes it.

use vstd::prelude::*;
use vstd::set_lib::*;

verus! {

/// Position `a` comes before position `b`: its key is smaller, or the keys
/// are equal and `a` is the earlier position.
pub open spec fn precedes(keys: Seq<int>, a: int, b: int) -> bool {
    keys[a] < keys[b] || (keys[a] == keys[b] && a < b)
}

/// `order` lists positions of `keys` taken from `lo..hi`, as many as the
/// range holds, each before the next in the sense of [`precedes`].
///
/// Since a position never precedes itself, `order` names every position of
/// the range exactly once.
pub open spec fn orders_range(order: Seq<int>, keys: Seq<int>, lo: int, hi: int) -> bool {
    &&& 0 <= lo <= hi <= keys.len()
    &&& order.len() == hi - lo
    &&& forall|i: int| 0 <= i < order.len() ==> lo <= #[trigger] order[i] < hi
    &&& forall|i: int, j: int|
        #![trigger order[i], order[j]]
        0 <= i < j < order.len() ==> precedes(keys, order[i], order[j])
}

/// `order` is the stable ascending arrangement of all positions of `keys`.
pub open spec fn is_stable_order(order: Seq<int>, keys: Seq<int>) -> bool {
    orders_range(order, keys, 0, keys.len() as int)
}

/// The positions of `keys` in ascending key order, positions of equal keys
/// in ascending order.
pub open spec fn stable_order(keys: Seq<int>) -> Seq<int> {
    choose|order: Seq<int>| is_stable_order(order, keys)
}

/// The values of `keys` in ascending order.
pub open spec fn ascending(keys: Seq<int>) -> Seq<int> {
    stable_order(keys).map_values(|p: int| keys[p])
}

/// Machine positions read as mathematical integers.
pub open spec fn as_positions(order: Seq<usize>) -> Seq<int> {
    order.map_values(|p: usize| p as int)
}

/// Machine keys read as mathematical integers.
pub open spec fn as_keys(keys: Seq<i128>) -> Seq<int> {
    keys.map_values(|k: i128| k as int)
}

/// Finds where a key `k` splits an arrangement: everything before the split
/// has a key at most `k`, everything from the split on a larger one.
proof fn lemma_split_point(order: Seq<int>, keys: Seq<int>, lo: int, hi: int, k: int, from: int) -> (p: int)
    requires
        orders_range(order, keys, lo, hi),
        0 <= from <= order.len(),
        forall|i: int| 0 <= i < from ==> keys[#[trigger] order[i]] <= k,
    ensures
        from <= p <= order.len(),
        forall|i: int| 0 <= i < p ==> keys[#[trigger] order[i]] <= k,
        forall|i: int| p <= i < order.len() ==> keys[#[trigger] order[i]] > k,
    decreases order.len() - from,
{
    if from == order.len() {
        from
    } else if keys[order[from]] > k {
        assert forall|i: int| from <= i < order.len() implies keys[#[trigger] order[i]] > k by {
            if i > from {
                assert(precedes(keys, order[from], order[i]));
            }
        }
        from
    } else {
        lemma_split_point(order, keys, lo, hi, k, from + 1)
    }
}

/// Builds a stable arrangement of the first `n` positions by placing them
/// one after another.
proof fn lemma_order_exists(keys: Seq<int>, n: int) -> (order: Seq<int>)
    requires
        0 <= n <= keys.len(),
    ensures
        orders_range(order, keys, 0, n),
    decreases n,
{
    if n == 0 {
        Seq::empty()
    } else {
        let prev = lemma_order_exists(keys, n - 1);
        let p = lemma_split_point(prev, keys, 0, n - 1, keys[n - 1], 0);
        let order = Seq::new(
            n as nat,
            |i: int|
                if i < p {
                    prev[i]
                } else if i == p {
                    n - 1
                } else {
                    prev[i - 1]
                },
        );
        assert forall|i: int, j: int| 0 <= i < j < order.len() implies precedes(
            keys,
            #[trigger] order[i],
            #[trigger] order[j],
        ) by {
            if j < p {
                assert(precedes(keys, prev[i], prev[j]));
            } else if j == p {
                assert(keys[prev[i]] <= keys[n - 1]);
            } else if i < p {
                assert(precedes(keys, prev[i], prev[j - 1]));
            } else if i == p {
                assert(keys[prev[j - 1]] > keys[n - 1]);
            } else {
                assert(precedes(keys, prev[i - 1], prev[j - 1]));
            }
        }
        order
    }
}

/// Every key sequence has a stable arrangement, and [`stable_order`] is one.
pub proof fn lemma_stable_order(keys: Seq<int>)
    ensures
        is_stable_order(stable_order(keys), keys),
        stable_order(keys).len() == keys.len(),
        ascending(keys).len() == keys.len(),
{
    let witness = lemma_order_exists(keys, keys.len() as int);
    assert(is_stable_order(witness, keys));
}

/// An arrangement of a range names every position of the range.
pub proof fn lemma_order_covers(order: Seq<int>, keys: Seq<int>, lo: int, hi: int, p: int) -> (i: int)
    requires
        orders_range(order, keys, lo, hi),
        lo <= p < hi,
    ensures
        0 <= i < order.len(),
        order[i] == p,
{
    assert(order.no_duplicates()) by {
        assert forall|i: int, j: int| 0 <= i < order.len() && 0 <= j < order.len() && i != j implies order[i]
            != order[j] by {
            if i < j {
                assert(precedes(keys, order[i], order[j]));
            } else {
                assert(precedes(keys, order[j], order[i]));
            }
        }
    }
    order.unique_seq_to_set();
    lemma_int_range(lo, hi);
    let named = order.to_set();
    let range = set_int_range(lo, hi);
    assert(named.subset_of(range)) by {
        assert forall|v: int| named.contains(v) implies range.contains(v) by {
            let i = choose|i: int| 0 <= i < order.len() && order[i] == v;
            assert(lo <= order[i] < hi);
        }
    }
    lemma_subset_equality(named, range);
    assert(range.contains(p));
    assert(named.contains(p));
    choose|i: int| 0 <= i < order.len() && order[i] == p
}

/// Two arrangements of the same range agree on their first `n` entries.
proof fn lemma_orders_agree(a: Seq<int>, b: Seq<int>, keys: Seq<int>, lo: int, hi: int, n: int)
    requires
        orders_range(a, keys, lo, hi),
        orders_range(b, keys, lo, hi),
        0 <= n <= hi - lo,
    ensures
        forall|i: int| 0 <= i < n ==> a[i] == b[i],
    decreases n,
{
    if n > 0 {
        lemma_orders_agree(a, b, keys, lo, hi, n - 1);
        let i = n - 1;
        assert(lo <= a[i] < hi);
        assert(lo <= b[i] < hi);
        let j = lemma_order_covers(b, keys, lo, hi, a[i]);
        let k = lemma_order_covers(a, keys, lo, hi, b[i]);
        if j < i {
            assert(a[j] == b[j]);
            assert(precedes(keys, a[j], a[i]));
        } else if k < i {
            assert(a[k] == b[k]);
            assert(precedes(keys, b[k], b[i]));
        } else if j > i && k > i {
            assert(precedes(keys, b[i], b[j]));
            assert(precedes(keys, a[i], a[k]));
        }
    }
}

/// A range has only one stable arrangement.
pub proof fn lemma_order_unique(a: Seq<int>, b: Seq<int>, keys: Seq<int>, lo: int, hi: int)
    requires
        orders_range(a, keys, lo, hi),
        orders_range(b, keys, lo, hi),
    ensures
        a == b,
{
    lemma_orders_agree(a, b, keys, lo, hi, hi - lo);
    assert(a =~= b);
}

/// The arranged keys never decrease.
pub proof fn lemma_ascending_is_sorted(keys: Seq<int>)
    ensures
        forall|i: int, j: int|
            #![trigger ascending(keys)[i], ascending(keys)[j]]
            0 <= i <= j < keys.len() ==> ascending(keys)[i] <= ascending(keys)[j],
{
    lemma_stable_order(keys);
    let order = stable_order(keys);
    assert forall|i: int, j: int| 0 <= i <= j < keys.len() implies #[trigger] ascending(keys)[i]
        <= #[trigger] ascending(keys)[j] by {
        if i < j {
            assert(precedes(keys, order[i], order[j]));
        }
    }
}

/// Keys that already ascend keep their positions.
pub proof fn lemma_sorted_keys_stay(keys: Seq<int>)
    requires
        forall|i: int, j: int| 0 <= i <= j < keys.len() ==> keys[i] <= keys[j],
    ensures
        stable_order(keys) == Seq::new(keys.len(), |p: int| p),
        ascending(keys) == keys,
{
    lemma_stable_order(keys);
    let identity = Seq::new(keys.len(), |p: int| p);
    assert(is_stable_order(identity, keys));
    lemma_order_unique(stable_order(keys), identity, keys, 0, keys.len() as int);
    assert(ascending(keys) =~= keys);
}

/// Merges the arrangements of two adjoining ranges into the arrangement of
/// their union. Where two keys are equal the position from the left range
/// goes first, which is the earlier one.
fn merge(
    keys: &Vec<i128>,
    left: &Vec<usize>,
    right: &Vec<usize>,
    Ghost(lo): Ghost<int>,
    Ghost(mid): Ghost<int>,
    Ghost(hi): Ghost<int>,
) -> (out: Vec<usize>)
    requires
        orders_range(as_positions(left@), as_keys(keys@), lo, mid),
        orders_range(as_positions(right@), as_keys(keys@), mid, hi),
    ensures
        orders_range(as_positions(out@), as_keys(keys@), lo, hi),
{
    let ghost ks = as_keys(keys@);
    let ghost l = as_positions(left@);
    let ghost r = as_positions(right@);
    let mut out: Vec<usize> = Vec::new();
    let mut i: usize = 0;
    let mut j: usize = 0;
    while i < left.len() || j < right.len()
        invariant
            ks == as_keys(keys@),
            l == as_positions(left@),
            r == as_positions(right@),
            orders_range(l, ks, lo, mid),
            orders_range(r, ks, mid, hi),
            i <= left.len(),
            j <= right.len(),
            out.len() == i + j,
            forall|k: int| 0 <= k < out.len() ==> lo <= #[trigger] out@[k] < hi,
            forall|a: int, b: int|
                #![trigger out@[a], out@[b]]
                0 <= a < b < out.len() ==> precedes(ks, out@[a] as int, out@[b] as int),
            forall|k: int|
                0 <= k < out.len() && i < left.len() ==> precedes(
                    ks,
                    #[trigger] out@[k] as int,
                    l[i as int],
                ),
            forall|k: int|
                0 <= k < out.len() && j < right.len() ==> precedes(
                    ks,
                    #[trigger] out@[k] as int,
                    r[j as int],
                ),
        decreases left.len() - i + (right.len() - j),
    {
        let from_left = if i == left.len() {
            false
        } else if j == right.len() {
            true
        } else {
            assert(lo <= l[i as int] < mid);
            assert(mid <= r[j as int] < hi);
            keys[left[i]] <= keys[right[j]]
        };
        if from_left {
            let p = left[i];
            proof {
                assert(lo <= l[i as int] < mid);
                if j < right.len() {
                    assert(mid <= r[j as int] < hi);
                }
                if i + 1 < left.len() {
                    assert(precedes(ks, l[i as int], l[i + 1]));
                }
            }
            out.push(p);
            i += 1;
        } else {
            let p = right[j];
            proof {
                assert(mid <= r[j as int] < hi);
                if i < left.len() {
                    assert(lo <= l[i as int] < mid);
                }
                if j + 1 < right.len() {
                    assert(precedes(ks, r[j as int], r[j + 1]));
                }
            }
            out.push(p);
            j += 1;
        }
    }
    proof {
        let o = as_positions(out@);
        assert forall|a: int, b: int| 0 <= a < b < o.len() implies precedes(
            ks,
            #[trigger] o[a],
            #[trigger] o[b],
        ) by {
            assert(precedes(ks, out@[a] as int, out@[b] as int));
        }
        assert forall|k: int| 0 <= k < o.len() implies lo <= #[trigger] o[k] < hi by {
            assert(lo <= out@[k] < hi);
        }
    }
    out
}

/// Arranges the positions `lo..hi` by merge sort.
fn sort_range(keys: &Vec<i128>, lo: usize, hi: usize) -> (order: Vec<usize>)
    requires
        lo <= hi <= keys.len(),
    ensures
        orders_range(as_positions(order@), as_keys(keys@), lo as int, hi as int),
    decreases hi - lo,
{
    if hi - lo == 0 {
        Vec::new()
    } else if hi - lo == 1 {
        let mut order: Vec<usize> = Vec::new();
        order.push(lo);
        order
    } else {
        let mid = lo + (hi - lo) / 2;
        let left = sort_range(keys, lo, mid);
        let right = sort_range(keys, mid, hi);
        merge(keys, &left, &right, Ghost(lo as int), Ghost(mid as int), Ghost(hi as int))
    }
}

/// Sorts the positions of `keys` by key; positions of equal keys stay in
/// ascending order.
pub fn sort_positions(keys: &Vec<i128>) -> (order: Vec<usize>)
    ensures
        as_positions(order@) == stable_order(as_keys(keys@)),
        order.len() == keys.len(),
        forall|i: int| 0 <= i < order.len() ==> #[trigger] order[i] < keys.len(),
{
    let order = sort_range(keys, 0, keys.len());
    proof {
        let ks = as_keys(keys@);
        lemma_stable_order(ks);
        lemma_order_unique(as_positions(order@), stable_order(ks), ks, 0, ks.len() as int);
        assert forall|i: int| 0 <= i < order.len() implies #[trigger] order[i] < keys.len() by {
            assert(as_positions(order@)[i] < ks.len());
        }
    }
    order
}

/// The positions that come before position `p`.
pub open spec fn before(keys: Seq<int>, p: int) -> Set<int> {
    Set::new(|q: int| 0 <= q < keys.len() && precedes(keys, q, p))
}

/// The position at place `r` of the stable arrangement has exactly `r`
/// positions before it: its place is its rank.
pub proof fn lemma_place_is_rank(keys: Seq<int>, r: int)
    requires
        0 <= r < keys.len(),
    ensures
        before(keys, stable_order(keys)[r]).finite(),
        before(keys, stable_order(keys)[r]).len() == r,
{
    lemma_stable_order(keys);
    let order = stable_order(keys);
    let head = order.take(r);
    assert(head.no_duplicates()) by {
        assert forall|i: int, j: int| 0 <= i < head.len() && 0 <= j < head.len() && i != j implies head[i]
            != head[j] by {
            if i < j {
                assert(precedes(keys, order[i], order[j]));
            } else {
                assert(precedes(keys, order[j], order[i]));
            }
        }
    }
    head.unique_seq_to_set();
    assert(before(keys, order[r]) =~= head.to_set()) by {
        assert forall|q: int| before(keys, order[r]).contains(q) implies head.to_set().contains(q) by {
            let i = lemma_order_covers(order, keys, 0, keys.len() as int, q);
            if i > r {
                assert(precedes(keys, order[r], order[i]));
            }
            assert(head[i] == q);
        }
        assert forall|q: int| head.to_set().contains(q) implies before(keys, order[r]).contains(q) by {
            let i = choose|i: int| 0 <= i < head.len() && head[i] == q;
            assert(precedes(keys, order[i], order[r]));
            assert(0 <= order[i] < keys.len());
        }
    }
}

} // verus!
