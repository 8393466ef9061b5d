use vstd::prelude::*;

use crate::order::{
    before, comes_before, in_order, lemma_sorted_permutation_is_unique, sorted, sorted_range, SortOrder,
};

verus! {

broadcast use vstd::seq_lib::group_to_multiset_ensures;

/// Exchanges the items at positions `a` and `b`.
fn swap_items(items: &mut [i32], a: usize, b: usize)
    requires
        a < old(items)@.len(),
        b < old(items)@.len(),
    ensures
        final(items)@ == old(items)@.update(a as int, old(items)@[b as int]).update(
            b as int,
            old(items)@[a as int],
        ),
        final(items)@.to_multiset() == old(items)@.to_multiset(),
{
    let x = items[a];
    let y = items[b];
    items[a] = y;
    items[b] = x;
    proof {
        let s = old(items)@;
        let t = s.update(a as int, y);
        assert(t.to_multiset() == s.to_multiset().insert(y).remove(x));
        assert(t.update(b as int, x).to_multiset() == t.to_multiset().insert(x).remove(t[b as int]));
        if a != b {
            assert(t[b as int] == y);
        }
        assert(items@.to_multiset() =~= s.to_multiset());
    }
}

/// Sorts `items` in place by moving each item left past those that it must
/// come before. Items that compare equal keep their relative positions.
pub fn insertion_sort(items: &mut [i32], sort_order: SortOrder)
    ensures
        final(items)@.to_multiset() == old(items)@.to_multiset(),
        final(items)@.len() == old(items)@.len(),
        sorted(sort_order, final(items)@),
        old(items)@.len() <= 1 ==> final(items)@ == old(items)@,
        sorted(sort_order, old(items)@) ==> final(items)@ == old(items)@,
{
    let n = items.len();
    if n <= 1 {
        return;
    }
    let mut i: usize = 1;
    while i < n
        invariant
            1 <= i <= n,
            n == items@.len(),
            items@.to_multiset() == old(items)@.to_multiset(),
            sorted_range(sort_order, items@, 0, i as int),
        decreases n - i,
    {
        let mut j: usize = i;
        while j > 0 && comes_before(&sort_order, items[j], items[j - 1])
            invariant
                1 <= i < n,
                j <= i,
                n == items@.len(),
                items@.to_multiset() == old(items)@.to_multiset(),
                forall|a: int, b: int|
                    0 <= a < b <= i && a != j && b != j ==> #[trigger] in_order(
                        sort_order,
                        items@[a],
                        items@[b],
                    ),
                forall|k: int| j < k <= i ==> #[trigger] in_order(sort_order, items@[j as int], items@[k]),
            decreases j,
        {
            swap_items(items, j - 1, j);
            j -= 1;
        }
        proof {
            let s = items@;
            assert(j > 0 ==> in_order(sort_order, s[j - 1], s[j as int]));
            assert forall|a: int, b: int| 0 <= a < b < i + 1 implies #[trigger] in_order(
                sort_order,
                s[a],
                s[b],
            ) by {
                if b == j && a < j - 1 {
                    assert(in_order(sort_order, s[a], s[j - 1]));
                }
            }
        }
        i += 1;
    }
    proof {
        if sorted(sort_order, old(items)@) {
            lemma_sorted_permutation_is_unique(sort_order, old(items)@, items@);
        }
    }
}

/// Sorts `items` in place: for each position in turn, finds the item among
/// it and those after it that comes first, and exchanges the two.
pub fn selection_sort(items: &mut [i32], sort_order: SortOrder)
    ensures
        final(items)@.to_multiset() == old(items)@.to_multiset(),
        final(items)@.len() == old(items)@.len(),
        sorted(sort_order, final(items)@),
        old(items)@.len() <= 1 ==> final(items)@ == old(items)@,
        sorted(sort_order, old(items)@) ==> final(items)@ == old(items)@,
{
    let n = items.len();
    if n <= 1 {
        return;
    }
    let mut i: usize = 1;
    while i < n
        invariant
            1 <= i <= n,
            n == items@.len(),
            items@.to_multiset() == old(items)@.to_multiset(),
            sorted_range(sort_order, items@, 0, i as int - 1),
            forall|a: int, b: int|
                0 <= a < i - 1 <= b < n ==> #[trigger] in_order(sort_order, items@[a], items@[b]),
        decreases n - i,
    {
        let mut swap_index: usize = i - 1;
        let mut j: usize = i;
        while j < n
            invariant
                1 <= i <= j <= n,
                n == items@.len(),
                i - 1 <= swap_index < j,
                forall|k: int|
                    i - 1 <= k < j ==> #[trigger] in_order(sort_order, items@[swap_index as int], items@[k]),
            decreases n - j,
        {
            if comes_before(&sort_order, items[j], items[swap_index]) {
                proof {
                    assert forall|k: int| i - 1 <= k <= j implies #[trigger] in_order(
                        sort_order,
                        items@[j as int],
                        items@[k],
                    ) by {
                        if k < j {
                            assert(in_order(sort_order, items@[swap_index as int], items@[k]));
                        }
                    }
                }
                swap_index = j;
            }
            j += 1;
        }
        let ghost pre = items@;
        swap_items(items, swap_index, i - 1);
        proof {
            let s = items@;
            assert forall|a: int, b: int| 0 <= a < i <= b < n implies #[trigger] in_order(
                sort_order,
                s[a],
                s[b],
            ) by {
                if a < i - 1 {
                    if b == swap_index {
                        assert(in_order(sort_order, pre[a], pre[i - 1]));
                    } else {
                        assert(in_order(sort_order, pre[a], pre[b]));
                    }
                } else {
                    if b == swap_index {
                        assert(in_order(sort_order, pre[swap_index as int], pre[i - 1]));
                    } else {
                        assert(in_order(sort_order, pre[swap_index as int], pre[b]));
                    }
                }
            }
            assert forall|a: int, b: int| 0 <= a < b < i implies #[trigger] in_order(
                sort_order,
                s[a],
                s[b],
            ) by {
                if b < i - 1 {
                    assert(in_order(sort_order, pre[a], pre[b]));
                } else {
                    assert(in_order(sort_order, pre[a], pre[swap_index as int]));
                }
            }
        }
        i += 1;
    }
    proof {
        if sorted(sort_order, old(items)@) {
            lemma_sorted_permutation_is_unique(sort_order, old(items)@, items@);
        }
    }
}

/// Copies the items at positions `lo..hi` into a new vector.
fn copy_range(items: &[i32], lo: usize, hi: usize) -> (r: Vec<i32>)
    requires
        lo <= hi <= items@.len(),
    ensures
        r@ == items@.subrange(lo as int, hi as int),
{
    let mut r: Vec<i32> = Vec::new();
    let mut p: usize = lo;
    while p < hi
        invariant
            lo <= p <= hi <= items@.len(),
            r@ == items@.subrange(lo as int, p as int),
        decreases hi - p,
    {
        r.push(items[p]);
        p += 1;
        assert(r@ =~= items@.subrange(lo as int, p as int));
    }
    r
}

/// The items of `s` at positions `lo..hi` are those at `lo..mid` together
/// with those at `mid..hi`.
proof fn lemma_split_multiset(s: Seq<i32>, lo: int, mid: int, hi: int)
    requires
        0 <= lo <= mid <= hi <= s.len(),
    ensures
        s.subrange(lo, hi).to_multiset() == s.subrange(lo, mid).to_multiset().add(
            s.subrange(mid, hi).to_multiset(),
        ),
{
    assert(s.subrange(lo, hi) =~= s.subrange(lo, mid) + s.subrange(mid, hi));
    vstd::seq_lib::lemma_multiset_commutative(s.subrange(lo, mid), s.subrange(mid, hi));
}

/// The sequence that merging the runs `l` and `r` gives: their fronts are
/// compared one by one and the one that comes before is taken; on a tie the
/// front of `r` is taken. When one run is used up, the rest of the other
/// follows unchanged.
pub open spec fn merged(order: SortOrder, l: Seq<i32>, r: Seq<i32>) -> Seq<i32>
    decreases l.len() + r.len(),
{
    if l.len() == 0 {
        r
    } else if r.len() == 0 {
        l
    } else if before(order, l[0], r[0]) {
        seq![l[0]] + merged(order, l.drop_first(), r)
    } else {
        seq![r[0]] + merged(order, l, r.drop_first())
    }
}

/// Merges the runs at positions `begin_index..=middle_index` and
/// `middle_index + 1..=end_index` in place, as `merged` describes. Where both
/// runs are sorted, the whole range is sorted afterwards.
fn merge(
    items: &mut [i32],
    begin_index: usize,
    middle_index: usize,
    end_index: usize,
    sort_order: &SortOrder,
)
    requires
        begin_index <= middle_index <= end_index < old(items)@.len(),
    ensures
        final(items)@.len() == old(items)@.len(),
        final(items)@.subrange(begin_index as int, end_index + 1) == merged(
            *sort_order,
            old(items)@.subrange(begin_index as int, middle_index + 1),
            old(items)@.subrange(middle_index + 1, end_index + 1),
        ),
        final(items)@.subrange(begin_index as int, end_index + 1).to_multiset() == old(items)@.subrange(begin_index as int, end_index + 1).to_multiset(),
        forall|p: int|
            0 <= p < old(items)@.len() && (p < begin_index || p > end_index) ==> final(items)@[p]
                == old(items)@[p],
        sorted_range(*sort_order, old(items)@, begin_index as int, middle_index + 1)
            && sorted_range(*sort_order, old(items)@, middle_index + 1, end_index + 1)
            ==> sorted_range(*sort_order, final(items)@, begin_index as int, end_index + 1),
{
    let ghost o = *sort_order;
    let ghost s0 = items@;
    let ghost runs_sorted = sorted_range(o, s0, begin_index as int, middle_index + 1)
        && sorted_range(o, s0, middle_index + 1, end_index + 1);
    let n = items.len();
    assert(end_index + 1 <= n);
    let left = copy_range(items, begin_index, middle_index + 1);
    let right = copy_range(items, middle_index + 1, end_index + 1);
    let mut i: usize = 0;
    let mut j: usize = 0;
    let mut k: usize = begin_index;
    proof {
        assert(left@.skip(0) =~= left@);
        assert(right@.skip(0) =~= right@);
        assert(items@.subrange(begin_index as int, begin_index as int) + merged(o, left@, right@)
            =~= merged(o, left@, right@));
    }
    while k <= end_index
        invariant
            begin_index <= middle_index <= end_index < items@.len(),
            items@.len() == s0.len(),
            left@ == s0.subrange(begin_index as int, middle_index + 1),
            right@ == s0.subrange(middle_index + 1, end_index + 1),
            runs_sorted == (sorted_range(o, s0, begin_index as int, middle_index + 1)
                && sorted_range(o, s0, middle_index + 1, end_index + 1)),
            o == *sort_order,
            i <= left@.len(),
            j <= right@.len(),
            k == begin_index + i + j,
            items@.subrange(begin_index as int, k as int) + merged(
                o,
                left@.skip(i as int),
                right@.skip(j as int),
            ) == merged(o, left@, right@),
            items@.subrange(begin_index as int, k as int).to_multiset() == left@.subrange(
                0,
                i as int,
            ).to_multiset().add(right@.subrange(0, j as int).to_multiset()),
            runs_sorted ==> sorted_range(o, items@, begin_index as int, k as int),
            runs_sorted ==> forall|p: int|
                begin_index <= p < k && i < left@.len() ==> #[trigger] in_order(
                    o,
                    items@[p],
                    left@[i as int],
                ),
            runs_sorted ==> forall|p: int|
                begin_index <= p < k && j < right@.len() ==> #[trigger] in_order(
                    o,
                    items@[p],
                    right@[j as int],
                ),
            forall|p: int|
                0 <= p < s0.len() && (p < begin_index || p > end_index) ==> items@[p] == s0[p],
        decreases end_index + 1 - k,
    {
        let ghost pre = items@;
        let ghost (i0, j0) = (i, j);
        let take_left = if i == left.len() {
            false
        } else if j == right.len() {
            true
        } else {
            comes_before(sort_order, left[i], right[j])
        };
        let x: i32;
        if take_left {
            x = left[i];
            i += 1;
        } else {
            x = right[j];
            j += 1;
        }
        items[k] = x;
        proof {
            let s = items@;
            let b = begin_index as int;
            assert(s.subrange(b, k + 1) =~= pre.subrange(b, k as int).push(x));
            let l0 = left@.skip(i0 as int);
            let r0 = right@.skip(j0 as int);
            assert(l0.len() > 0 || r0.len() > 0);
            if take_left {
                assert(left@.subrange(0, i as int) =~= left@.subrange(0, i0 as int).push(x));
                assert(right@.subrange(0, j as int) =~= right@.subrange(0, j0 as int));
                assert(l0.drop_first() =~= left@.skip(i as int));
                assert(merged(o, l0, r0) == seq![x] + merged(o, l0.drop_first(), r0));
            } else {
                assert(right@.subrange(0, j as int) =~= right@.subrange(0, j0 as int).push(x));
                assert(left@.subrange(0, i as int) =~= left@.subrange(0, i0 as int));
                assert(r0.drop_first() =~= right@.skip(j as int));
                assert(merged(o, l0, r0) == seq![x] + merged(o, l0, r0.drop_first()));
            }
            assert(s.subrange(b, k + 1) + merged(o, left@.skip(i as int), right@.skip(j as int))
                =~= pre.subrange(b, k as int) + merged(o, l0, r0));
            if runs_sorted {
                assert forall|p: int| b <= p < k + 1 && i < left@.len() implies #[trigger] in_order(
                    o,
                    s[p],
                    left@[i as int],
                ) by {
                    if take_left {
                        assert(in_order(o, s0[b + i0], s0[b + i]));
                        if p < k {
                            assert(in_order(o, pre[p], left@[i0 as int]));
                        }
                    } else if p < k {
                        assert(in_order(o, pre[p], left@[i0 as int]));
                    }
                }
                assert forall|p: int| b <= p < k + 1 && j < right@.len() implies #[trigger] in_order(
                    o,
                    s[p],
                    right@[j as int],
                ) by {
                    let m = middle_index + 1;
                    if !take_left {
                        assert(in_order(o, s0[m + j0], s0[m + j]));
                        if p < k {
                            assert(in_order(o, pre[p], right@[j0 as int]));
                        }
                    } else if p < k {
                        assert(in_order(o, pre[p], right@[j0 as int]));
                    }
                }
                assert forall|p: int, q: int| b <= p < q < k + 1 implies #[trigger] in_order(
                    o,
                    s[p],
                    s[q],
                ) by {
                    if q == k {
                        if take_left {
                            assert(in_order(o, pre[p], left@[i0 as int]));
                        } else {
                            assert(in_order(o, pre[p], right@[j0 as int]));
                        }
                    } else {
                        assert(in_order(o, pre[p], pre[q]));
                    }
                }
            }
        }
        k += 1;
    }
    proof {
        assert(left@.subrange(0, i as int) =~= left@);
        assert(right@.subrange(0, j as int) =~= right@);
        assert(left@.skip(i as int) =~= Seq::<i32>::empty());
        assert(right@.skip(j as int) =~= Seq::<i32>::empty());
        assert(items@.subrange(begin_index as int, k as int) + Seq::<i32>::empty()
            =~= items@.subrange(begin_index as int, k as int));
        lemma_split_multiset(s0, begin_index as int, middle_index + 1, end_index + 1);
    }
}

/// Sorts the items at positions `begin_index..=end_index` in place, by
/// sorting each half and merging them; a range of at most one item is left
/// as it is. To sort a whole slice, pass `0` and the length less one (or
/// `0` for an empty slice).
pub fn merge_sort(items: &mut [i32], begin_index: usize, end_index: usize, sort_order: &SortOrder)
    requires
        begin_index < end_index ==> end_index < old(items)@.len(),
    ensures
        final(items)@.len() == old(items)@.len(),
        begin_index >= end_index ==> final(items)@ == old(items)@,
        begin_index < end_index ==> {
            &&& sorted_range(*sort_order, final(items)@, begin_index as int, end_index + 1)
            &&& final(items)@.subrange(begin_index as int, end_index + 1).to_multiset() == old(items)@.subrange(begin_index as int, end_index + 1).to_multiset()
            &&& forall|p: int|
                0 <= p < old(items)@.len() && (p < begin_index || p > end_index) ==> final(items)@[p] == old(items)@[p]
        },
        begin_index == 0 && end_index as int == (if old(items)@.len() == 0 {
            0
        } else {
            old(items)@.len() - 1
        }) ==> {
            &&& sorted(*sort_order, final(items)@)
            &&& final(items)@.to_multiset() == old(items)@.to_multiset()
            &&& sorted(*sort_order, old(items)@) ==> final(items)@ == old(items)@
        },
    decreases end_index - begin_index,
{
    let ghost s0 = items@;
    if begin_index < end_index {
        let middle_index = begin_index + (end_index - begin_index) / 2;
        merge_sort(items, begin_index, middle_index, sort_order);
        let ghost s1 = items@;
        merge_sort(items, middle_index + 1, end_index, sort_order);
        let ghost s2 = items@;
        proof {
            let b = begin_index as int;
            let m = middle_index + 1;
            let e = end_index + 1;
            assert(s2.subrange(b, m) =~= s1.subrange(b, m));
            assert(s1.subrange(m, e) =~= s0.subrange(m, e));
            if begin_index == middle_index {
                assert(s1.subrange(b, m) =~= s0.subrange(b, m));
            }
            if middle_index + 1 >= end_index {
                assert(s2.subrange(m, e) =~= s1.subrange(m, e));
            }
            lemma_split_multiset(s0, b, m, e);
            lemma_split_multiset(s2, b, m, e);
        }
        merge(items, begin_index, middle_index, end_index, sort_order);
        proof {
            let n = s0.len() as int;
            if begin_index == 0 && end_index + 1 == n {
                assert(items@.subrange(0, n) =~= items@);
                assert(s0.subrange(0, n) =~= s0);
                if sorted(*sort_order, s0) {
                    lemma_sorted_permutation_is_unique(*sort_order, s0, items@);
                }
            }
        }
    }
}

} // verus!
