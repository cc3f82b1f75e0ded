//! In-place sorting routines over `i64` values. Every sort ensures the
//! same two things: the result is sorted, and it is a permutation of the
//! input (the multiset of elements is unchanged).
use vstd::prelude::*;

use vstd::pervasive::VecAdditionalExecFns;
use vstd::seq_lib::group_to_multiset_ensures;
use vstd::seq_lib::lemma_multiset_commutative;
use vstd::seq_lib::to_multiset_insert;
use vstd::seq_lib::to_multiset_remove;
use vstd::seq_lib::to_multiset_update;

verus! {

/// Non-decreasing order.
pub open spec fn sorted(s: Seq<i64>) -> bool {
    forall|a: int, b: int| 0 <= a < b < s.len() ==> #[trigger] s[a] <= #[trigger] s[b]
}

/// Exchanges the elements at `x` and `y`; everything else is untouched
/// and the multiset of elements is unchanged.
fn swap(arr: &mut Vec<i64>, x: usize, y: usize)
    requires
        x < old(arr).len(),
        y < old(arr).len(),
    ensures
        final(arr)@ == old(arr)@.update(x as int, old(arr)@[y as int]).update(
            y as int,
            old(arr)@[x as int],
        ),
        final(arr)@.to_multiset() == old(arr)@.to_multiset(),
        final(arr)@.len() == old(arr)@.len(),
{
    proof {
        broadcast use to_multiset_update;
        broadcast use group_to_multiset_ensures;
        broadcast use vstd::multiset::group_multiset_axioms;

    }
    let a = arr[x];
    let b = arr[y];
    arr.set(x, b);
    arr.set(y, a);
    proof {
        let s0 = old(arr)@;
        let s1 = s0.update(x as int, b);
        assert(s0.contains(a));
        assert(s1.contains(s1[y as int]));
        assert(s1.to_multiset() =~= s0.to_multiset().insert(b).remove(a));
        assert(arr@.to_multiset() =~= s1.to_multiset().insert(a).remove(s1[y as int]));
        assert(arr@.to_multiset() =~= old(arr)@.to_multiset());
    }
}

/// Sorts by repeatedly selecting the least remaining element.
pub fn selection_sort(arr: &mut Vec<i64>)
    ensures
        sorted(final(arr)@),
        final(arr)@.to_multiset() == old(arr)@.to_multiset(),
        final(arr)@.len() == old(arr)@.len(),
{
    let len = arr.len();
    if len < 2 {
        return ;
    }
    let mut i: usize = 0;
    while i < len
        invariant
            arr@.len() == len,
            i <= len,
            arr@.to_multiset() == old(arr)@.to_multiset(),
            forall|a: int, b: int|
                0 <= a < i && a < b < len ==> #[trigger] arr@[a] <= #[trigger] arr@[b],
        decreases len - i,
    {
        let mut min_index = i;
        let mut j = i + 1;
        while j < len
            invariant
                i < len,
                i <= min_index < len,
                i < j <= len,
                arr@.len() == len,
                forall|k: int| i <= k < j ==> #[trigger] arr@[min_index as int] <= arr@[k],
            decreases len - j,
        {
            if arr[min_index] > arr[j] {
                min_index = j;
            }
            j += 1;
        }
        swap(arr, i, min_index);
        i += 1;
    }
}

/// Sorts by bubbling larger elements to the end, stopping early once a
/// pass makes no exchange.
pub fn bubble_sort(arr: &mut Vec<i64>)
    ensures
        sorted(final(arr)@),
        final(arr)@.to_multiset() == old(arr)@.to_multiset(),
        final(arr)@.len() == old(arr)@.len(),
{
    let len = arr.len();
    if len < 2 {
        return ;
    }
    let mut i: usize = 0;
    let mut early = false;
    while i < len && !early
        invariant
            arr@.len() == len,
            i <= len,
            arr@.to_multiset() == old(arr)@.to_multiset(),
            forall|a: int, b: int|
                0 <= a < b < len && len - i <= b ==> #[trigger] arr@[a] <= #[trigger] arr@[b],
            early ==> sorted(arr@),
        decreases len - i,
    {
        let mut swapped = false;
        let mut j: usize = 0;
        while j < len - i - 1
            invariant
                arr@.len() == len,
                i < len,
                j <= len - i - 1,
                arr@.to_multiset() == old(arr)@.to_multiset(),
                forall|a: int, b: int|
                    0 <= a < b < len && len - i <= b ==> #[trigger] arr@[a] <= #[trigger] arr@[b],
                forall|k: int| 0 <= k < j ==> #[trigger] arr@[k] <= arr@[j as int],
                !swapped ==> forall|k: int| 0 <= k < j ==> #[trigger] arr@[k] <= arr@[k + 1],
            decreases len - i - 1 - j,
        {
            if arr[j] > arr[j + 1] {
                swap(arr, j, j + 1);
                swapped = true;
            }
            j += 1;
        }
        if !swapped {
            proof {
                assert forall|a: int, b: int| 0 <= a < b < len implies arr@[a] <= arr@[b] by {
                    lemma_le_chain(arr@, a, b);
                }
            }
            early = true;
        }
        i += 1;
    }
}

/// Chains adjacent bounds into an ordering between any two positions.
proof fn lemma_le_chain(s: Seq<i64>, a: int, b: int)
    requires
        0 <= a <= b < s.len(),
        forall|k: int| 0 <= k < s.len() - 1 ==> #[trigger] s[k] <= s[k + 1],
    ensures
        s[a] <= s[b],
    decreases b - a,
{
    if a < b {
        lemma_le_chain(s, a, b - 1);
        assert(s[b - 1] <= s[b]);
    }
}

/// Sorts by moving each element backward to its place in the sorted
/// prefix.
#[verifier::rlimit(50)]
pub fn insertion_sort(arr: &mut Vec<i64>)
    ensures
        sorted(final(arr)@),
        final(arr)@.to_multiset() == old(arr)@.to_multiset(),
        final(arr)@.len() == old(arr)@.len(),
{
    let len = arr.len();
    if len < 2 {
        return ;
    }
    let mut i: usize = 1;
    while i < len
        invariant
            arr@.len() == len,
            1 <= i <= len,
            arr@.to_multiset() == old(arr)@.to_multiset(),
            forall|a: int, b: int| 0 <= a < b < i ==> #[trigger] arr@[a] <= #[trigger] arr@[b],
        decreases len - i,
    {
        let key = arr[i];
        let mut j = i;
        while j > 0 && key < arr[j - 1]
            invariant
                arr@.len() == len,
                i < len,
                j <= i,
                key == arr@[i as int],
                forall|a: int, b: int| 0 <= a < b < i ==> #[trigger] arr@[a] <= #[trigger] arr@[b],
                forall|k: int| j <= k < i ==> key < #[trigger] arr@[k],
            decreases j,
        {
            j -= 1;
        }
        let ghost before = arr@;
        let moved = arr.remove(i);
        arr.insert(j, moved);
        proof {
            broadcast use to_multiset_insert;
            broadcast use to_multiset_remove;
            broadcast use group_to_multiset_ensures;
            broadcast use vstd::multiset::group_multiset_axioms;

            before.remove_ensures(i as int);
            before.remove(i as int).insert_ensures(j as int, key);
            assert(before.contains(key));
            assert(arr@.to_multiset() =~= before.to_multiset());
            assert forall|a: int, b: int| 0 <= a < b < i + 1 implies arr@[a] <= arr@[b] by {
                if a < j {
                    assert(arr@[a] == before[a]);
                }
                if b < j {
                    assert(arr@[b] == before[b]);
                }
                if a == j {
                    assert(arr@[a] == key);
                }
                if b == j {
                    assert(arr@[b] == key);
                }
                if j < a {
                    assert(arr@[a] == before[a - 1]);
                }
                if j < b {
                    assert(arr@[b] == before[b - 1]);
                }
            }
        }
        i += 1;
    }
}

/// Merges the two sorted halves `arr[..mid]` and `arr[mid..]` in place.
fn merge(arr: &mut Vec<i64>, mid: usize)
    requires
        mid <= old(arr).len(),
        sorted(old(arr)@.take(mid as int)),
        sorted(old(arr)@.skip(mid as int)),
    ensures
        sorted(final(arr)@),
        final(arr)@.to_multiset() == old(arr)@.to_multiset(),
        final(arr)@.len() == old(arr)@.len(),
{
    let len = arr.len();
    let left = copy_range(arr, 0, mid);
    let right = copy_range(arr, mid, len);
    proof {
        broadcast use group_to_multiset_ensures;
        broadcast use lemma_multiset_commutative;
        broadcast use vstd::multiset::group_multiset_axioms;

        assert(left@ + right@ =~= arr@);
        assert(left@.take(0) =~= Seq::<i64>::empty());
        assert(right@.take(0) =~= Seq::<i64>::empty());
        assert(arr@.take(0) =~= Seq::<i64>::empty());
        assert((Seq::<i64>::empty() + Seq::<i64>::empty()) =~= Seq::<i64>::empty());
    }
    let mut l: usize = 0;
    let mut r: usize = 0;
    let mut k: usize = 0;
    while k < len
        invariant
            arr@.len() == len,
            left@ == old(arr)@.take(mid as int),
            right@ == old(arr)@.skip(mid as int),
            left@.len() == mid,
            left@.len() + right@.len() == len,
            sorted(left@),
            sorted(right@),
            l <= left@.len(),
            r <= right@.len(),
            k == l + r,
            k <= len,
            arr@.take(k as int).to_multiset() == (left@.take(l as int) + right@.take(
                r as int,
            )).to_multiset(),
            sorted(arr@.take(k as int)),
            forall|t: int|
                0 <= t < k && l < left@.len() ==> #[trigger] arr@[t] <= left@[l as int],
            forall|t: int|
                0 <= t < k && r < right@.len() ==> #[trigger] arr@[t] <= right@[r as int],
        decreases len - k,
    {
        proof {
            broadcast use group_to_multiset_ensures;
            broadcast use lemma_multiset_commutative;
            broadcast use vstd::multiset::group_multiset_axioms;

        }
        let ghost before = arr@;
        let ghost l0 = l as int;
        let ghost r0 = r as int;
        let take_left = if r == right.len() {
            true
        } else if l < left.len() {
            left[l] < right[r]
        } else {
            false
        };
        if take_left {
            arr.set(k, left[l]);
            l += 1;
            proof {
                assert(left@.take(l0 + 1) =~= left@.take(l0).push(left@[l0]));
            }
        } else {
            arr.set(k, right[r]);
            r += 1;
            proof {
                assert(right@.take(r0 + 1) =~= right@.take(r0).push(right@[r0]));
            }
        }
        proof {
            assert(arr@.take(k as int + 1) =~= before.take(k as int).push(arr@[k as int]));
            assert(arr@.take(k as int + 1).to_multiset() =~= (left@.take(l as int) + right@.take(
                r as int,
            )).to_multiset());
        }
        k += 1;
    }
    proof {
        broadcast use lemma_multiset_commutative;
        broadcast use vstd::multiset::group_multiset_axioms;

        assert(arr@.take(len as int) =~= arr@);
        assert(left@.take(l as int) =~= left@);
        assert(right@.take(r as int) =~= right@);
        assert(left@ + right@ =~= old(arr)@);
    }
}

/// Copies `arr[from..to]` out into a fresh vector.
fn copy_range(arr: &Vec<i64>, from: usize, to: usize) -> (r: Vec<i64>)
    requires
        from <= to <= arr@.len(),
    ensures
        r@ == arr@.subrange(from as int, to as int),
{
    let mut r: Vec<i64> = Vec::new();
    let mut i = from;
    while i < to
        invariant
            from <= i <= to <= arr@.len(),
            r@ == arr@.subrange(from as int, i as int),
        decreases to - i,
    {
        r.push(arr[i]);
        proof {
            assert(arr@.subrange(from as int, i as int).push(arr@[i as int]) =~= arr@.subrange(
                from as int,
                i as int + 1,
            ));
        }
        i += 1;
    }
    r
}

/// Sorts by halving, sorting each half, and merging.
pub fn merge_sort(arr: &mut Vec<i64>)
    ensures
        sorted(final(arr)@),
        final(arr)@.to_multiset() == old(arr)@.to_multiset(),
        final(arr)@.len() == old(arr)@.len(),
    decreases old(arr)@.len(),
{
    if arr.len() > 1 {
        let mid = arr.len() / 2;
        let ghost whole = arr@;
        let mut low_half = copy_range(arr, 0, mid);
        let mut high_half = copy_range(arr, mid, arr.len());
        merge_sort(&mut low_half);
        merge_sort(&mut high_half);
        let mut joined = low_half;
        joined.append(&mut high_half);
        let mid2 = mid;
        proof {
            broadcast use lemma_multiset_commutative;

            assert(joined@.take(mid2 as int) =~= joined@.subrange(0, mid2 as int));
            assert(whole.take(mid2 as int) + whole.skip(mid2 as int) =~= whole);
        }
        merge(&mut joined, mid2);
        *arr = joined;
    }
}

/// Two sequences equal outside `[lo, hi)` and equal as multisets have
/// equal multisets on `[lo, hi)` as well.
proof fn lemma_segment_multiset(s1: Seq<i64>, s2: Seq<i64>, lo: int, hi: int)
    requires
        s1.len() == s2.len(),
        0 <= lo <= hi <= s1.len(),
        forall|k: int| 0 <= k < s1.len() && !(lo <= k < hi) ==> s1[k] == s2[k],
        s1.to_multiset() == s2.to_multiset(),
    ensures
        s1.subrange(lo, hi).to_multiset() == s2.subrange(lo, hi).to_multiset(),
{
    broadcast use lemma_multiset_commutative;
    broadcast use vstd::multiset::group_multiset_axioms;

    let n = s1.len() as int;
    assert(s1 =~= s1.subrange(0, lo) + s1.subrange(lo, hi) + s1.subrange(hi, n));
    assert(s2 =~= s2.subrange(0, lo) + s2.subrange(lo, hi) + s2.subrange(hi, n));
    assert(s1.subrange(0, lo) =~= s2.subrange(0, lo));
    assert(s1.subrange(hi, n) =~= s2.subrange(hi, n));
    let a = s1.subrange(0, lo).to_multiset();
    let c = s1.subrange(hi, n).to_multiset();
    let b1 = s1.subrange(lo, hi).to_multiset();
    let b2 = s2.subrange(lo, hi).to_multiset();
    assert(a.add(b1).add(c) == a.add(b2).add(c));
    assert forall|e: i64| b1.count(e) == b2.count(e) by {
        assert(a.add(b1).add(c).count(e) == a.count(e) + b1.count(e) + c.count(e));
        assert(a.add(b2).add(c).count(e) == a.count(e) + b2.count(e) + c.count(e));
    }
    assert(b1 =~= b2);
}

/// An upper bound on every element carries across equality of multisets.
proof fn lemma_bound_le(x: Seq<i64>, y: Seq<i64>, v: i64)
    requires
        x.to_multiset() == y.to_multiset(),
        forall|k: int| 0 <= k < x.len() ==> #[trigger] x[k] <= v,
    ensures
        forall|k: int| 0 <= k < y.len() ==> #[trigger] y[k] <= v,
{
    broadcast use group_to_multiset_ensures;
    broadcast use vstd::multiset::group_multiset_axioms;

    assert forall|k: int| 0 <= k < y.len() implies #[trigger] y[k] <= v by {
        assert(y.contains(y[k]));
        assert(x.to_multiset().count(y[k]) > 0);
        assert(x.contains(y[k]));
        let i = choose|i: int| 0 <= i < x.len() && x[i] == y[k];
        assert(x[i] <= v);
    }
}

/// A lower bound on every element carries across equality of multisets.
proof fn lemma_bound_ge(x: Seq<i64>, y: Seq<i64>, v: i64)
    requires
        x.to_multiset() == y.to_multiset(),
        forall|k: int| 0 <= k < x.len() ==> #[trigger] x[k] >= v,
    ensures
        forall|k: int| 0 <= k < y.len() ==> #[trigger] y[k] >= v,
{
    broadcast use group_to_multiset_ensures;
    broadcast use vstd::multiset::group_multiset_axioms;

    assert forall|k: int| 0 <= k < y.len() implies #[trigger] y[k] >= v by {
        assert(y.contains(y[k]));
        assert(x.to_multiset().count(y[k]) > 0);
        assert(x.contains(y[k]));
        let i = choose|i: int| 0 <= i < x.len() && x[i] == y[k];
        assert(x[i] >= v);
    }
}

/// Splits `arr[low..=high]` around the element initially at `high`:
/// afterwards everything left of the returned index is at most the
/// element there, everything right of it at least.
#[verifier::loop_isolation(false)]
fn partition(arr: &mut Vec<i64>, low: isize, high: isize) -> (p: isize)
    requires
        0 <= low < high < old(arr)@.len(),
        old(arr)@.len() <= isize::MAX,
    ensures
        low <= p <= high,
        final(arr)@.len() == old(arr)@.len(),
        final(arr)@.to_multiset() == old(arr)@.to_multiset(),
        forall|k: int|
            0 <= k < final(arr)@.len() && !(low <= k <= high) ==> final(arr)@[k] == old(arr)@[k],
        forall|k: int| low <= k < p ==> final(arr)@[k] <= final(arr)@[p as int],
        forall|k: int| p < k <= high ==> final(arr)@[k] >= final(arr)@[p as int],
{
    let pivot = high as usize;
    let ghost pv = arr@[high as int];
    let mut i = low - 1;
    let mut j = high;
    loop
        invariant
            0 <= low < high < arr@.len(),
            arr@.len() == old(arr)@.len(),
            arr@.to_multiset() == old(arr)@.to_multiset(),
            forall|k: int|
                0 <= k < arr@.len() && !(low <= k <= high) ==> arr@[k] == old(arr)@[k],
            arr@[high as int] == pv,
            low - 1 <= i,
            i < j,
            j <= high,
            forall|k: int| low <= k <= i ==> #[trigger] arr@[k] <= pv,
            forall|k: int| j <= k < high ==> #[trigger] arr@[k] >= pv,
        decreases j - i,
    {
        let ghost i0 = i;
        let ghost j0 = j;
        i += 1;
        while arr[i as usize] < arr[pivot]
            invariant
                i > i0,
                0 <= low < high < arr@.len(),
                arr@.len() == old(arr)@.len(),
                arr@.to_multiset() == old(arr)@.to_multiset(),
                forall|k: int|
                    0 <= k < arr@.len() && !(low <= k <= high) ==> arr@[k] == old(arr)@[k],
                arr@[high as int] == pv,
                low <= i <= high,
                forall|k: int| low <= k < i ==> #[trigger] arr@[k] <= pv,
                forall|k: int| j < k < high ==> #[trigger] arr@[k] >= pv,
            decreases high - i,
        {
            i += 1;
        }
        j -= 1;
        while j >= 0 && arr[j as usize] > arr[pivot]
            invariant
                i > i0,
                j < j0,
                0 <= low < high < arr@.len(),
                arr@.len() == old(arr)@.len(),
                arr@.to_multiset() == old(arr)@.to_multiset(),
                forall|k: int|
                    0 <= k < arr@.len() && !(low <= k <= high) ==> arr@[k] == old(arr)@[k],
                arr@[high as int] == pv,
                low <= i <= high,
                -1 <= j < high,
                forall|k: int| low <= k < i ==> #[trigger] arr@[k] <= pv,
                forall|k: int| j < k < high ==> #[trigger] arr@[k] >= pv,
            decreases j + 1,
        {
            j -= 1;
        }
        if i >= j {
            swap(arr, i as usize, pivot);
            return i;
        } else {
            swap(arr, i as usize, j as usize);
        }
    }
}

fn _quick_sort(arr: &mut Vec<i64>, low: isize, high: isize)
    requires
        0 <= low <= high + 1,
        high < old(arr)@.len(),
        old(arr)@.len() <= isize::MAX,
    ensures
        final(arr)@.len() == old(arr)@.len(),
        final(arr)@.to_multiset() == old(arr)@.to_multiset(),
        forall|k: int|
            0 <= k < final(arr)@.len() && !(low <= k <= high) ==> final(arr)@[k] == old(arr)@[k],
        forall|a: int, b: int|
            low <= a < b <= high ==> #[trigger] final(arr)@[a] <= #[trigger] final(arr)@[b],
    decreases high - low + 1,
{
    if low < high {
        let piv = partition(arr, low, high);
        let ghost s1 = arr@;
        let ghost pv = s1[piv as int];
        _quick_sort(arr, low, piv - 1);
        let ghost s2 = arr@;
        _quick_sort(arr, piv + 1, high);
        proof {
            let s3 = arr@;
            lemma_segment_multiset(s1, s2, low as int, piv as int);
            lemma_bound_le(
                s1.subrange(low as int, piv as int),
                s2.subrange(low as int, piv as int),
                pv,
            );
            lemma_segment_multiset(s2, s3, piv as int + 1, high as int + 1);
            lemma_bound_ge(
                s2.subrange(piv as int + 1, high as int + 1),
                s3.subrange(piv as int + 1, high as int + 1),
                pv,
            );
            assert(s3[piv as int] == pv);
            assert forall|a: int, b: int| low <= a < b <= high implies #[trigger] s3[a]
                <= #[trigger] s3[b] by {
                if a < piv {
                    assert(s3[a] == s2[a]);
                    assert(s2.subrange(low as int, piv as int)[a - low] == s2[a]);
                    assert(s3[a] <= pv);
                }
                if b < piv {
                    assert(s3[b] == s2[b]);
                }
                if b > piv {
                    assert(s3.subrange(piv as int + 1, high as int + 1)[b - piv - 1] == s3[b]);
                    assert(s3[b] >= pv);
                }
                if a > piv {
                    assert(s3.subrange(piv as int + 1, high as int + 1)[a - piv - 1] == s3[a]);
                }
            }
        }
    }
}

/// The max-heap shape among the first `n` elements, for every
/// parent-child pair whose parent index is at least `i`.
pub open spec fn heap_from(s: Seq<i64>, n: int, i: int) -> bool {
    forall|c: int| 0 < c < n && (c - 1) / 2 >= i ==> s[(c - 1) / 2] >= #[trigger] s[c]
}

/// In a full max-heap the root is the largest of the first `n` elements.
proof fn lemma_le_root(s: Seq<i64>, n: int, c: int)
    requires
        heap_from(s, n, 0),
        0 <= c < n <= s.len(),
    ensures
        s[c] <= s[0],
    decreases c,
{
    if c > 0 {
        assert(0 <= (c - 1) / 2 < c);
        assert(s[(c - 1) / 2] >= s[c]);
        lemma_le_root(s, n, (c - 1) / 2);
    }
}

/// Restores the max-heap shape at `i` by sifting its value down through
/// the first `n` elements: afterwards every pair with parent at or below
/// `i` is in heap order, the root of the sift holds one of the three
/// values that competed for it, and no other position grew.
#[verifier::rlimit(100)]
fn heapfiy(arr: &mut Vec<i64>, n: usize, i: usize)
    requires
        i < n <= old(arr).len(),
        old(arr)@.len() <= usize::MAX / 2,
        heap_from(old(arr)@, n as int, i + 1),
    ensures
        final(arr)@.len() == old(arr)@.len(),
        final(arr)@.to_multiset() == old(arr)@.to_multiset(),
        forall|k: int|
            0 <= k < final(arr)@.len() && !(i <= k < n) ==> final(arr)@[k] == old(arr)@[k],
        forall|k: int| i < k < n ==> final(arr)@[k] <= old(arr)@[k],
        heap_from(final(arr)@, n as int, i as int),
        final(arr)@[i as int] == old(arr)@[i as int] || (2 * i + 1 < n && final(arr)@[i as int]
            == old(arr)@[2 * i + 1]) || (2 * i + 2 < n && final(arr)@[i as int] == old(arr)@[2 * i
            + 2]),
    decreases n - i,
{
    let ghost s1 = arr@;
    let mut largest = i;
    let l = 2 * i + 1;
    let r = 2 * i + 2;
    if l < n && arr[largest] < arr[l] {
        largest = l;
    }
    if r < n && arr[largest] < arr[r] {
        largest = r;
    }
    if largest != i {
        swap(arr, i, largest);
        let ghost s2 = arr@;
        proof {
            assert(heap_from(s2, n as int, largest + 1)) by {
                assert forall|c: int|
                    0 < c < n && (c - 1) / 2 >= largest + 1 implies s2[(c - 1) / 2]
                    >= #[trigger] s2[c] by {
                    let p = (c - 1) / 2;
                    assert(c > p >= largest + 1);
                    assert(s2[p] == s1[p] && s2[c] == s1[c]);
                }
            }
        }
        heapfiy(arr, n, largest);
        proof {
            let s3 = arr@;
            let ni = n as int;
            let la = largest as int;
            let ii = i as int;
            // the value that ended at `largest` never exceeds what `i` keeps
            assert(s3[la] <= s1[la]) by {
                if s3[la] == s2[la] {
                } else if 2 * la + 1 < ni && s3[la] == s2[2 * la + 1] {
                    assert(s1[2 * la + 1] <= s1[la]);
                } else {
                    assert(s1[2 * la + 2] <= s1[la]);
                }
            }
            assert(heap_from(s3, ni, ii)) by {
                assert forall|c: int|
                    0 < c < ni && (c - 1) / 2 >= ii implies s3[(c - 1) / 2] >= #[trigger] s3[c] by {
                    let p = (c - 1) / 2;
                    if p >= la {
                        assert(s3[p] >= s3[c]);
                    } else if p == ii {
                        assert(s3[p] == s2[ii]);
                        if c == la {
                            assert(s3[la] <= s1[la]);
                            assert(s2[ii] == s1[la]);
                        } else {
                            assert(s3[c] <= s2[c]);
                            assert(s2[c] == s1[c]);
                            assert(s1[c] <= s2[ii]);
                        }
                    } else {
                        // parents strictly between `i` and `largest`
                        assert(p != ii && p != la && ii < p);
                        assert(s3[p] == s2[p] && s2[p] == s1[p]);
                        assert(c > p);
                        assert(c != ii && c != la);
                        if c > la {
                            assert(s3[c] <= s2[c]);
                        } else {
                            assert(s3[c] == s2[c]);
                        }
                        assert(s2[c] == s1[c]);
                        assert(s1[p] >= s1[c]);
                    }
                }
            }
            assert forall|k: int| ii < k < ni implies s3[k] <= s1[k] by {
                if k == la {
                } else if k > la {
                    assert(s3[k] <= s2[k] && s2[k] == s1[k]);
                } else {
                    assert(s3[k] == s2[k] && s2[k] == s1[k]);
                }
            }
        }
    }
}

/// What one extraction step starts from: the heap root bounds the whole
/// heap, and swapping it behind the boundary leaves a heap except at its
/// root.
proof fn lemma_pre_extract(s1: Seq<i64>, j: int, n: int)
    requires
        s1.len() == n,
        0 < j < n,
        heap_from(s1, j + 1, 0),
    ensures
        forall|c: int| 0 <= c < j + 1 ==> #[trigger] s1[c] <= s1[0],
        heap_from(s1.update(j, s1[0]).update(0, s1[j]), j, 1),
{
    assert forall|c: int| 0 <= c < j + 1 implies #[trigger] s1[c] <= s1[0] by {
        lemma_le_root(s1, j + 1, c);
    }
    let s2 = s1.update(j, s1[0]).update(0, s1[j]);
    assert forall|c: int| 0 < c < j && (c - 1) / 2 >= 1 implies s2[(c - 1) / 2]
        >= #[trigger] s2[c] by {
        let p = (c - 1) / 2;
        assert(1 <= p < c);
        assert(s2[p] == s1[p] && s2[c] == s1[c]);
    }
}

/// What one extraction step leaves: the boundary moved one place left,
/// with everything before it still at most everything behind it, and the
/// tail sorted.
proof fn lemma_post_extract(s1: Seq<i64>, s2: Seq<i64>, s3: Seq<i64>, j: int, n: int)
    requires
        s1.len() == n,
        s2.len() == n,
        s3.len() == n,
        0 < j < n,
        heap_from(s1, j + 1, 0),
        forall|a: int, b: int| 0 <= a <= j < b < n ==> #[trigger] s1[a] <= #[trigger] s1[b],
        forall|a: int, b: int| j < a < b < n ==> #[trigger] s1[a] <= #[trigger] s1[b],
        s2 == s1.update(j, s1[0]).update(0, s1[j]),
        s3.to_multiset() == s2.to_multiset(),
        forall|k: int| 0 <= k < n && !(0 <= k < j) ==> s3[k] == s2[k],
    ensures
        forall|a: int, b: int| 0 <= a <= j - 1 < b < n ==> #[trigger] s3[a] <= #[trigger] s3[b],
        forall|a: int, b: int| j - 1 < a < b < n ==> #[trigger] s3[a] <= #[trigger] s3[b],
{
    assert forall|c: int| 0 <= c < j + 1 implies #[trigger] s1[c] <= s1[0] by {
        lemma_le_root(s1, j + 1, c);
    }
    assert forall|a: int| 0 <= a < j implies s2.subrange(0, j)[a] <= s1[0] by {
        if a == 0 {
            assert(s2[0] == s1[j]);
        } else {
            assert(s2[a] == s1[a]);
        }
    }
    lemma_segment_multiset(s2, s3, 0, j);
    lemma_bound_le(s2.subrange(0, j), s3.subrange(0, j), s1[0]);
    assert forall|a: int, b: int| 0 <= a <= j - 1 && j - 1 < b < n implies #[trigger] s3[a]
        <= #[trigger] s3[b] by {
        assert(s3.subrange(0, j)[a] == s3[a]);
        assert(s3[a] <= s1[0]);
        if b == j {
            assert(s3[b] == s2[j]);
            assert(s2[j] == s1[0]);
        } else {
            assert(s3[b] == s2[b] && s2[b] == s1[b]);
            assert(s1[0] <= s1[b]);
        }
    }
    assert forall|a: int, b: int| j - 1 < a < b < n implies #[trigger] s3[a] <= #[trigger] s3[b] by {
        if a == j {
            assert(s3[a] == s2[j] && s2[j] == s1[0]);
            assert(s3[b] == s2[b] && s2[b] == s1[b]);
            assert(s1[0] <= s1[b]);
        } else {
            assert(s3[a] == s2[a] && s2[a] == s1[a]);
            assert(s3[b] == s2[b] && s2[b] == s1[b]);
        }
    }
}

/// Sorts with heapsort: builds a max-heap, then repeatedly moves the
/// heap's root past the shrinking heap boundary.
#[verifier::rlimit(100)]
pub fn heap_sort(arr: &mut Vec<i64>)
    requires
        old(arr)@.len() <= usize::MAX / 2,
    ensures
        sorted(final(arr)@),
        final(arr)@.to_multiset() == old(arr)@.to_multiset(),
        final(arr)@.len() == old(arr)@.len(),
{
    let n = arr.len();
    if n < 2 {
        return ;
    }
    let mut i: isize = (n / 2 - 1) as isize;
    proof {
        assert forall|c: int| 0 < c < n && (c - 1) / 2 >= i + 1 implies arr@[(c - 1) / 2]
            >= #[trigger] arr@[c] by {
            // no parent index reaches n / 2, so the range is empty
            assert(c - 1 >= 2 * (i + 1));
            assert(c >= n);
        }
    }
    while i > -1
        invariant
            n == arr@.len(),
            n <= usize::MAX / 2,
            2 <= n,
            -1 <= i < n,
            arr@.to_multiset() == old(arr)@.to_multiset(),
            heap_from(arr@, n as int, i + 1),
        decreases i + 1,
    {
        heapfiy(arr, n, i as usize);
        i -= 1;
    }
    let mut j: isize = (n - 1) as isize;
    while j > 0
        invariant
            n == arr@.len(),
            n <= usize::MAX / 2,
            0 <= j < n,
            arr@.to_multiset() == old(arr)@.to_multiset(),
            heap_from(arr@, j + 1, 0),
            forall|a: int, b: int| 0 <= a <= j < b < n ==> #[trigger] arr@[a] <= #[trigger] arr@[b],
            forall|a: int, b: int| j < a < b < n ==> #[trigger] arr@[a] <= #[trigger] arr@[b],
        decreases j,
    {
        let ghost s1 = arr@;
        proof {
            lemma_pre_extract(s1, j as int, n as int);
        }
        swap(arr, j as usize, 0);
        let ghost s2 = arr@;
        heapfiy(arr, j as usize, 0);
        proof {
            lemma_post_extract(s1, s2, arr@, j as int, n as int);
        }
        j -= 1;
    }
    proof {
        assert forall|a: int, b: int| 0 <= a < b < n implies #[trigger] arr@[a]
            <= #[trigger] arr@[b] by {
            if a == 0 {
                assert(0 <= a <= j < b < n);
            }
        }
    }
}

/// Sorts with quicksort, partitioning around the last element of each
/// range.
pub fn quick_sort(arr: &mut Vec<i64>)
    requires
        old(arr)@.len() <= isize::MAX,
    ensures
        sorted(final(arr)@),
        final(arr)@.to_multiset() == old(arr)@.to_multiset(),
        final(arr)@.len() == old(arr)@.len(),
{
    let len = arr.len() as isize;
    if len > 1 {
        _quick_sort(arr, 0, len - 1);
    }
}

} // verus!
