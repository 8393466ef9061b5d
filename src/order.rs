use vstd::prelude::*;

verus! {

/// The direction in which a sort arranges its items.
#[derive(Clone, Copy, Debug, PartialEq, Eq, Structural)]
pub enum SortOrder {
    Nonincreasing,
    Nondecreasing,
}

/// The strict comparison that a sort uses to decide that `a` must come
/// before `b`: `a < b` when ascending, `a > b` when descending.
pub open spec fn before(order: SortOrder, a: i32, b: i32) -> bool {
    match order {
        SortOrder::Nondecreasing => a < b,
        SortOrder::Nonincreasing => a > b,
    }
}

/// `a` may stand before `b` in a sorted sequence.
pub open spec fn in_order(order: SortOrder, a: i32, b: i32) -> bool {
    !before(order, b, a)
}

/// Every pair of positions in `lo..hi` is ordered.
pub open spec fn sorted_range(order: SortOrder, s: Seq<i32>, lo: int, hi: int) -> bool {
    forall|i: int, j: int| lo <= i < j < hi ==> #[trigger] in_order(order, s[i], s[j])
}

/// The whole sequence is ordered, pair by pair.
pub open spec fn sorted(order: SortOrder, s: Seq<i32>) -> bool {
    sorted_range(order, s, 0, s.len() as int)
}

/// Executable form of `before`, selected once per call by the sorts.
pub(crate) fn comes_before(order: &SortOrder, a: i32, b: i32) -> (r: bool)
    ensures
        r == before(*order, a, b),
{
    match order {
        SortOrder::Nondecreasing => a < b,
        SortOrder::Nonincreasing => a > b,
    }
}

/// Two sequences that are both sorted in the same order and hold the same
/// items are equal. In particular, sorting a sequence that is already sorted
/// gives it back unchanged, whichever of the sorts is used.
pub proof fn lemma_sorted_permutation_is_unique(order: SortOrder, s: Seq<i32>, r: Seq<i32>)
    requires
        sorted(order, s),
        sorted(order, r),
        r.to_multiset() == s.to_multiset(),
    ensures
        r == s,
    decreases s.len(),
{
    broadcast use vstd::seq_lib::group_to_multiset_ensures;

    assert(s.len() == s.to_multiset().len());
    assert(r.len() == r.to_multiset().len());
    if s.len() > 0 {
        assert(s.to_multiset().count(s[0]) > 0) by {
            assert(s.contains(s[0]));
        }
        assert(r.contains(s[0]));
        let k = choose|k: int| 0 <= k < r.len() && r[k] == s[0];
        assert(in_order(order, r[0], s[0])) by {
            if k > 0 {
                assert(in_order(order, r[0], r[k]));
            }
        }
        assert(r.to_multiset().count(r[0]) > 0) by {
            assert(r.contains(r[0]));
        }
        assert(s.contains(r[0]));
        let m = choose|m: int| 0 <= m < s.len() && s[m] == r[0];
        assert(in_order(order, s[0], r[0])) by {
            if m > 0 {
                assert(in_order(order, s[0], s[m]));
            }
        }
        assert(r[0] == s[0]);
        let s1 = s.remove(0);
        let r1 = r.remove(0);
        assert(s1 =~= s.drop_first());
        assert(r1 =~= r.drop_first());
        assert(s1.to_multiset() == s.to_multiset().remove(s[0]));
        assert(r1.to_multiset() == r.to_multiset().remove(r[0]));
        assert(sorted(order, s1)) by {
            assert forall|i: int, j: int| 0 <= i < j < s1.len() implies #[trigger] in_order(
                order,
                s1[i],
                s1[j],
            ) by {
                assert(in_order(order, s[i + 1], s[j + 1]));
            }
        }
        assert(sorted(order, r1)) by {
            assert forall|i: int, j: int| 0 <= i < j < r1.len() implies #[trigger] in_order(
                order,
                r1[i],
                r1[j],
            ) by {
                assert(in_order(order, r[i + 1], r[j + 1]));
            }
        }
        lemma_sorted_permutation_is_unique(order, s1, r1);
        assert(r =~= s) by {
            assert forall|i: int| 0 <= i < s.len() implies r[i] == s[i] by {
                if i > 0 {
                    assert(r[i] == r1[i - 1]);
                    assert(s[i] == s1[i - 1]);
                }
            }
        }
    } else {
        assert(r =~= s);
    }
}

} // verus!
