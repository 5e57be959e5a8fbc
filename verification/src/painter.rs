//! Painter's ordering: far triangles are drawn first, so that near ones
//! paint over them.
//!
//! Triangles are ordered by the key of their depth, largest first. A depth
//! that is not a number has the largest key and is drawn before everything
//! else. Triangles of equal key are drawn in the order of their indices, so
//! the result is the same on every run.
use crate::single::Single;
use vstd::prelude::*;

verus! {

/// The order keys of a sequence of depths.
pub open spec fn keys_of(depth: Seq<Single>) -> Seq<u32> {
    depth.map_values(|d: Single| d.key())
}

/// Item `i` is drawn before item `j`: it has the larger key, or the same key
/// and the smaller index.
pub open spec fn precedes(keys: Seq<u32>, i: int, j: int) -> bool {
    keys[i] > keys[j] || (keys[i] == keys[j] && i < j)
}

/// `order` holds indices into `keys`, each drawn before all that follow it.
/// No index can occur twice in such a sequence.
pub open spec fn ordered(order: Seq<usize>, keys: Seq<u32>) -> bool {
    &&& forall|k: int| 0 <= k < order.len() ==> #[trigger] order[k] < keys.len()
    &&& forall|a: int, b: int|
        #![trigger order[a], order[b]]
        0 <= a < b < order.len() ==> precedes(keys, order[a] as int, order[b] as int)
}

/// `order` lists triangles from far to near by the given depths.
pub open spec fn far_to_near(order: Seq<usize>, depth: Seq<Single>) -> bool {
    ordered(order, keys_of(depth))
}

/// Indices in strictly increasing order.
pub open spec fn ascending(order: Seq<usize>) -> bool {
    forall|a: int, b: int|
        #![trigger order[a], order[b]]
        0 <= a < b < order.len() ==> order[a] < order[b]
}

/// Whether item `i` is drawn before item `j`.
fn goes_first(keys: &Vec<u32>, i: usize, j: usize) -> (r: bool)
    requires
        i < keys.len(),
        j < keys.len(),
    ensures
        r == precedes(keys@, i as int, j as int),
{
    keys[i] > keys[j] || (keys[i] == keys[j] && i < j)
}

/// Merges two ordered runs that share no index into one ordered run.
fn merge(left: &Vec<usize>, right: &Vec<usize>, keys: &Vec<u32>) -> (out: Vec<usize>)
    requires
        ordered(left@, keys@),
        ordered(right@, keys@),
        forall|a: int, b: int|
            #![trigger left[a], right[b]]
            0 <= a < left.len() && 0 <= b < right.len() ==> left[a] != right[b],
        left.len() + right.len() <= usize::MAX,
    ensures
        ordered(out@, keys@),
        out.len() == left.len() + right.len(),
        forall|x: usize| out@.contains(x) <==> left@.contains(x) || right@.contains(x),
{
    let mut out: Vec<usize> = Vec::new();
    let mut i: usize = 0;
    let mut j: usize = 0;
    while i < left.len() || j < right.len()
        invariant
            i <= left.len(),
            j <= right.len(),
            out.len() == i + j,
            left.len() + right.len() <= usize::MAX,
            ordered(left@, keys@),
            ordered(right@, keys@),
            forall|a: int, b: int|
                #![trigger left[a], right[b]]
                0 <= a < left.len() && 0 <= b < right.len() ==> left[a] != right[b],
            ordered(out@, keys@),
            forall|k: int, a: int|
                #![trigger out[k], left[a]]
                0 <= k < out.len() && i <= a < left.len() ==> precedes(
                    keys@,
                    out[k] as int,
                    left[a] as int,
                ),
            forall|k: int, b: int|
                #![trigger out[k], right[b]]
                0 <= k < out.len() && j <= b < right.len() ==> precedes(
                    keys@,
                    out[k] as int,
                    right[b] as int,
                ),
            forall|x: usize|
                out@.contains(x) <==> left@.take(i as int).contains(x) || right@.take(
                    j as int,
                ).contains(x),
        decreases left.len() - i + (right.len() - j),
    {
        let take_left = if i < left.len() {
            if j < right.len() {
                goes_first(keys, left[i], right[j])
            } else {
                true
            }
        } else {
            false
        };
        let ghost before = out@;
        if take_left {
            let x = left[i];
            out.push(x);
            proof {
                assert forall|a: int| i < a < left.len() implies precedes(
                    keys@,
                    x as int,
                    #[trigger] left[a] as int,
                ) by {
                    assert(precedes(keys@, left[i as int] as int, left[a] as int));
                }
                assert forall|b: int| j <= b < right.len() implies precedes(
                    keys@,
                    x as int,
                    #[trigger] right[b] as int,
                ) by {
                    assert(precedes(keys@, left[i as int] as int, right[j as int] as int));
                    if j < b {
                        assert(precedes(keys@, right[j as int] as int, right[b] as int));
                    }
                }
                let taken = left@.take(i as int);
                assert(left@.take(i + 1) =~= taken.push(x));
                lemma_push_contains(before, x);
                lemma_push_contains(taken, x);
                assert(out@ == before.push(x));
                assert forall|y: usize|
                    out@.contains(y) <==> left@.take(i + 1).contains(y) || right@.take(
                        j as int,
                    ).contains(y) by {
                    assert(before.push(x).contains(y) <==> before.contains(y) || y == x);
                    assert(taken.push(x).contains(y) <==> taken.contains(y) || y == x);
                }
            }
            i = i + 1;
        } else {
            let x = right[j];
            out.push(x);
            proof {
                assert forall|b: int| j < b < right.len() implies precedes(
                    keys@,
                    x as int,
                    #[trigger] right[b] as int,
                ) by {
                    assert(precedes(keys@, right[j as int] as int, right[b] as int));
                }
                assert forall|a: int| i <= a < left.len() implies precedes(
                    keys@,
                    x as int,
                    #[trigger] left[a] as int,
                ) by {
                    assert(left[i as int] != right[j as int]);
                    assert(!precedes(keys@, left[i as int] as int, right[j as int] as int));
                    if i < a {
                        assert(precedes(keys@, left[i as int] as int, left[a] as int));
                    }
                }
                let taken = right@.take(j as int);
                assert(right@.take(j + 1) =~= taken.push(x));
                lemma_push_contains(before, x);
                lemma_push_contains(taken, x);
                assert(out@ == before.push(x));
                assert forall|y: usize|
                    out@.contains(y) <==> left@.take(i as int).contains(y) || right@.take(
                        j + 1,
                    ).contains(y) by {
                    assert(before.push(x).contains(y) <==> before.contains(y) || y == x);
                    assert(taken.push(x).contains(y) <==> taken.contains(y) || y == x);
                }
            }
            j = j + 1;
        }
    }
    proof {
        assert(left@.take(i as int) =~= left@);
        assert(right@.take(j as int) =~= right@);
    }
    out
}

/// What a sequence holds after one more item was pushed.
proof fn lemma_push_contains(s: Seq<usize>, x: usize)
    ensures
        forall|y: usize| s.push(x).contains(y) <==> s.contains(y) || y == x,
{
    assert forall|y: usize| s.push(x).contains(y) <==> s.contains(y) || y == x by {
        if s.contains(y) {
            let k = choose|k: int| 0 <= k < s.len() && s[k] == y;
            assert(s.push(x)[k] == y);
        }
        if y == x {
            assert(s.push(x)[s.len() as int] == y);
        }
        if s.push(x).contains(y) {
            let k = choose|k: int| 0 <= k < s.push(x).len() && s.push(x)[k] == y;
            if k < s.len() {
                assert(s[k] == y);
            }
        }
    }
}

/// Orders the items at positions `lo..hi` of `items`.
fn sort_range(items: &Vec<usize>, lo: usize, hi: usize, keys: &Vec<u32>) -> (out: Vec<usize>)
    requires
        lo <= hi <= items.len(),
        forall|k: int| 0 <= k < items.len() ==> #[trigger] items[k] < keys.len(),
        forall|a: int, b: int|
            #![trigger items[a], items[b]]
            0 <= a < b < items.len() ==> items[a] != items[b],
    ensures
        ordered(out@, keys@),
        out.len() == hi - lo,
        forall|x: usize| out@.contains(x) <==> items@.subrange(lo as int, hi as int).contains(x),
    decreases hi - lo,
{
    let ghost range = items@.subrange(lo as int, hi as int);
    if hi - lo == 0 {
        let out: Vec<usize> = Vec::new();
        proof {
            assert forall|x: usize| out@.contains(x) <==> range.contains(x) by {
                if range.contains(x) {
                    let k = choose|k: int| 0 <= k < range.len() && range[k] == x;
                }
            }
        }
        out
    } else if hi - lo == 1 {
        let mut out: Vec<usize> = Vec::new();
        out.push(items[lo]);
        proof {
            assert(out@ =~= range);
        }
        out
    } else {
        let mid = lo + (hi - lo) / 2;
        let left = sort_range(items, lo, mid, keys);
        let right = sort_range(items, mid, hi, keys);
        proof {
            let l = items@.subrange(lo as int, mid as int);
            let r = items@.subrange(mid as int, hi as int);
            assert forall|a: int, b: int|
                #![trigger left[a], right[b]]
                0 <= a < left.len() && 0 <= b < right.len() implies left[a] != right[b] by {
                assert(left@.contains(left[a]));
                assert(right@.contains(right[b]));
                let p = choose|p: int| 0 <= p < l.len() && l[p] == left[a];
                let q = choose|q: int| 0 <= q < r.len() && r[q] == right[b];
                assert(items[lo + p] != items[mid + q]);
            }
        }
        let out = merge(&left, &right, keys);
        proof {
            let l = items@.subrange(lo as int, mid as int);
            let r = items@.subrange(mid as int, hi as int);
            assert forall|x: usize| out@.contains(x) <==> range.contains(x) by {
                if l.contains(x) {
                    let p = choose|p: int| 0 <= p < l.len() && l[p] == x;
                    assert(range[p] == x);
                }
                if r.contains(x) {
                    let q = choose|q: int| 0 <= q < r.len() && r[q] == x;
                    assert(range[mid - lo + q] == x);
                }
                if range.contains(x) {
                    let k = choose|k: int| 0 <= k < range.len() && range[k] == x;
                    if k < mid - lo {
                        assert(l[k] == x);
                    } else {
                        assert(r[k - (mid - lo)] == x);
                    }
                }
            }
        }
        out
    }
}

/// The order keys of the given depths, one per depth.
pub fn depth_keys(depth: &Vec<Single>) -> (keys: Vec<u32>)
    ensures
        keys@ == keys_of(depth@),
{
    let mut keys: Vec<u32> = Vec::new();
    let mut i: usize = 0;
    while i < depth.len()
        invariant
            i <= depth.len(),
            keys.len() == i,
            forall|k: int| 0 <= k < i ==> keys[k] == #[trigger] depth[k].key(),
        decreases depth.len() - i,
    {
        keys.push(depth[i].order_key());
        i = i + 1;
    }
    proof {
        assert(keys@ =~= keys_of(depth@));
    }
    keys
}

/// Puts `items`, which are indices into `depth` without repetition, into
/// drawing order: the same indices, each drawn before all that follow it.
pub(crate) fn sort_far_to_near(items: &Vec<usize>, depth: &Vec<Single>) -> (order: Vec<usize>)
    requires
        forall|k: int| 0 <= k < items.len() ==> #[trigger] items[k] < depth.len(),
        forall|a: int, b: int|
            #![trigger items[a], items[b]]
            0 <= a < b < items.len() ==> items[a] != items[b],
    ensures
        far_to_near(order@, depth@),
        order.len() == items.len(),
        forall|x: usize| order@.contains(x) <==> items@.contains(x),
{
    let keys = depth_keys(depth);
    let order = sort_range(items, 0, items.len(), &keys);
    proof {
        assert(items@.subrange(0, items.len() as int) =~= items@);
    }
    order
}

/// The drawing order of a whole batch: every index of `depth` once, from the
/// farthest triangle to the nearest.
pub fn back_to_front(depth: &Vec<Single>) -> (order: Vec<usize>)
    ensures
        far_to_near(order@, depth@),
        order.len() == depth.len(),
        forall|x: usize| order@.contains(x) <==> x < depth.len(),
{
    let mut items: Vec<usize> = Vec::new();
    let mut i: usize = 0;
    while i < depth.len()
        invariant
            i <= depth.len(),
            items.len() == i,
            forall|k: int| 0 <= k < i ==> #[trigger] items[k] == k,
        decreases depth.len() - i,
    {
        items.push(i);
        i = i + 1;
    }
    let order = sort_far_to_near(&items, depth);
    proof {
        assert forall|x: usize| items@.contains(x) <==> x < depth.len() by {
            if x < depth.len() {
                assert(items[x as int] == x);
            }
            if items@.contains(x) {
                let k = choose|k: int| 0 <= k < items.len() && items[k] == x;
            }
        }
    }
    order
}

/// Where all depths in a drawing order are numbers and no two have the same
/// value, each triangle is strictly farther than the one drawn after it.
pub proof fn lemma_distinct_depths_strictly_far_to_near(
    order: Seq<usize>,
    depth: Seq<Single>,
    a: int,
    b: int,
)
    requires
        far_to_near(order, depth),
        0 <= a < b < order.len(),
        !depth[order[a] as int].nan(),
        !depth[order[b] as int].nan(),
        depth[order[a] as int].value() != depth[order[b] as int].value(),
    ensures
        depth[order[a] as int].value() > depth[order[b] as int].value(),
{
    let i = order[a] as int;
    let j = order[b] as int;
    assert(order[a] < keys_of(depth).len());
    assert(order[b] < keys_of(depth).len());
    assert(precedes(keys_of(depth), i, j));
    crate::single::lemma_key_orders_values(depth[i], depth[j]);
    crate::single::lemma_key_orders_values(depth[j], depth[i]);
}

/// In a drawing order no triangle is nearer than one drawn after it, as far
/// as both depths are numbers.
pub proof fn lemma_far_to_near_never_rises(order: Seq<usize>, depth: Seq<Single>, a: int, b: int)
    requires
        far_to_near(order, depth),
        0 <= a < b < order.len(),
        !depth[order[a] as int].nan(),
        !depth[order[b] as int].nan(),
    ensures
        depth[order[a] as int].value() >= depth[order[b] as int].value(),
{
    let i = order[a] as int;
    let j = order[b] as int;
    assert(order[a] < keys_of(depth).len());
    assert(order[b] < keys_of(depth).len());
    assert(precedes(keys_of(depth), i, j));
    crate::single::lemma_key_orders_values(depth[i], depth[j]);
    crate::single::lemma_key_orders_values(depth[j], depth[i]);
}

/// A drawing order lists no triangle twice.
pub proof fn lemma_ordered_is_duplicate_free(order: Seq<usize>, keys: Seq<u32>, a: int, b: int)
    requires
        ordered(order, keys),
        0 <= a < b < order.len(),
    ensures
        order[a] != order[b],
{
    assert(precedes(keys, order[a] as int, order[b] as int));
}

/// There is one drawing order of a given set of triangles: two orders that
/// hold the same indices are the same sequence.
pub proof fn lemma_ordered_is_unique(a: Seq<usize>, b: Seq<usize>, keys: Seq<u32>)
    requires
        ordered(a, keys),
        ordered(b, keys),
        forall|x: usize| a.contains(x) <==> b.contains(x),
    ensures
        a == b,
    decreases a.len(),
{
    if a.len() == 0 {
        if b.len() > 0 {
            assert(b.contains(b[0]));
            let i = choose|i: int| 0 <= i < a.len() && a[i] == b[0];
        }
        assert(a =~= b);
    } else {
        assert(a.contains(a[0]));
        let j = choose|j: int| 0 <= j < b.len() && b[j] == a[0];
        assert(b.contains(b[0]));
        let i = choose|i: int| 0 <= i < a.len() && a[i] == b[0];
        if j > 0 {
            assert(precedes(keys, b[0] as int, b[j] as int));
        }
        if i > 0 {
            assert(precedes(keys, a[0] as int, a[i] as int));
        }
        assert(a[0] == b[0]);
        let ra = a.skip(1);
        let rb = b.skip(1);
        assert forall|x: usize| ra.contains(x) <==> rb.contains(x) by {
            if ra.contains(x) {
                let k = choose|k: int| 0 <= k < ra.len() && ra[k] == x;
                assert(a[k + 1] == x);
                assert(precedes(keys, a[0] as int, a[k + 1] as int));
                assert(a.contains(x));
                let m = choose|m: int| 0 <= m < b.len() && b[m] == x;
                assert(m > 0);
                assert(rb[m - 1] == x);
            }
            if rb.contains(x) {
                let k = choose|k: int| 0 <= k < rb.len() && rb[k] == x;
                assert(b[k + 1] == x);
                assert(precedes(keys, b[0] as int, b[k + 1] as int));
                assert(b.contains(x));
                let m = choose|m: int| 0 <= m < a.len() && a[m] == x;
                assert(m > 0);
                assert(ra[m - 1] == x);
            }
        }
        assert forall|p: int, q: int| 0 <= p < q < ra.len() implies precedes(
            keys,
            #[trigger] ra[p] as int,
            #[trigger] ra[q] as int,
        ) by {
            assert(precedes(keys, a[p + 1] as int, a[q + 1] as int));
        }
        assert forall|p: int, q: int| 0 <= p < q < rb.len() implies precedes(
            keys,
            #[trigger] rb[p] as int,
            #[trigger] rb[q] as int,
        ) by {
            assert(precedes(keys, b[p + 1] as int, b[q + 1] as int));
        }
        assert forall|k: int| 0 <= k < ra.len() implies #[trigger] ra[k] < keys.len() by {
            assert(a[k + 1] < keys.len());
        }
        assert forall|k: int| 0 <= k < rb.len() implies #[trigger] rb[k] < keys.len() by {
            assert(b[k + 1] < keys.len());
        }
        lemma_ordered_is_unique(ra, rb, keys);
        assert(a =~= seq![a[0]] + ra);
        assert(b =~= seq![b[0]] + rb);
    }
}

/// Indices below `n` in increasing order are ordered by keys that are all
/// the same.
pub proof fn lemma_ascending_is_ordered(order: Seq<usize>, n: nat)
    requires
        ascending(order),
        forall|k: int| 0 <= k < order.len() ==> #[trigger] order[k] < n,
    ensures
        ordered(order, Seq::new(n, |i: int| 0u32)),
{
    let keys = Seq::new(n, |i: int| 0u32);
    assert forall|a: int, b: int| 0 <= a < b < order.len() implies precedes(
        keys,
        #[trigger] order[a] as int,
        #[trigger] order[b] as int,
    ) by {
        assert(order[a] < order[b]);
    }
}

} // verus!
