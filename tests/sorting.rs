use chapter_one::{insertion_sort, merge_sort, selection_sort, SortOrder};

fn merge_sort_all(items: &mut [i32], sort_order: SortOrder) {
    let length = items.len();
    merge_sort(items, 0, length.saturating_sub(1), &sort_order);
}

fn is_ordered(items: &[i32], sort_order: SortOrder) -> bool {
    items.windows(2).all(|w| match sort_order {
        SortOrder::Nondecreasing => w[0] <= w[1],
        SortOrder::Nonincreasing => w[0] >= w[1],
    })
}

fn same_items(a: &[i32], b: &[i32]) -> bool {
    let mut x = a.to_vec();
    let mut y = b.to_vec();
    x.sort();
    y.sort();
    x == y
}

#[test]
fn insertion_sort_nondecreasing() {
    let mut array = [5, 2, 4, 6, 1, 3];
    insertion_sort(&mut array, SortOrder::Nondecreasing);
    assert_eq!(array, [1, 2, 3, 4, 5, 6]);
}

#[test]
fn insertion_sort_nonincreasing() {
    let mut array = [5, 2, 4, 6, 1, 3];
    insertion_sort(&mut array, SortOrder::Nonincreasing);
    assert_eq!(array, [6, 5, 4, 3, 2, 1]);
}

#[test]
fn insertion_sort_negative() {
    let mut array = [5, 0, -8, -6, -1, 1];
    insertion_sort(&mut array, SortOrder::Nondecreasing);
    assert_eq!(array, [-8, -6, -1, 0, 1, 5]);
}

#[test]
fn insertion_sort_no_elements() {
    let mut array: [i32; 0] = [];
    insertion_sort(&mut array, SortOrder::Nondecreasing);
    assert_eq!(array, []);
}

#[test]
fn insertion_sort_one_element() {
    let mut array = [1];
    insertion_sort(&mut array, SortOrder::Nondecreasing);
    assert_eq!(array, [1]);
}

#[test]
fn selection_sort_nondecreasing() {
    let mut array = [5, 2, 4, 6, 1, 3];
    selection_sort(&mut array, SortOrder::Nondecreasing);
    assert_eq!(array, [1, 2, 3, 4, 5, 6]);
}

#[test]
fn selection_sort_nonincreasing() {
    let mut array = [5, 2, 4, 6, 1, 3];
    selection_sort(&mut array, SortOrder::Nonincreasing);
    assert_eq!(array, [6, 5, 4, 3, 2, 1]);
}

#[test]
fn selection_sort_no_elements() {
    let mut array: [i32; 0] = [];
    selection_sort(&mut array, SortOrder::Nondecreasing);
    assert_eq!(array, []);
}

#[test]
fn selection_sort_one_element() {
    let mut array = [1];
    selection_sort(&mut array, SortOrder::Nondecreasing);
    assert_eq!(array, [1]);
}

#[test]
fn merge_sort_nondecreasing() {
    let mut array = [5, 2, 4, 6, 1, 3];
    let length = array.len();
    merge_sort(&mut array, 0, length.saturating_sub(1), &SortOrder::Nondecreasing);
    assert_eq!(array, [1, 2, 3, 4, 5, 6]);
}

#[test]
fn merge_sort_nonincreasing() {
    let mut array = [5, 2, 4, 6, 1, 3];
    let length = array.len();
    merge_sort(&mut array, 0, length.saturating_sub(1), &SortOrder::Nonincreasing);
    assert_eq!(array, [6, 5, 4, 3, 2, 1]);
}

#[test]
fn merge_sort_odd_length() {
    let mut array = [5, 2, 7, 4, 6, 1, 3];
    let length = array.len();
    merge_sort(&mut array, 0, length.saturating_sub(1), &SortOrder::Nondecreasing);
    assert_eq!(array, [1, 2, 3, 4, 5, 6, 7]);
}

#[test]
fn merge_sort_no_elements() {
    let mut array: [i32; 0] = [];
    let length = array.len();
    merge_sort(&mut array, 0, length.saturating_sub(1), &SortOrder::Nondecreasing);
    assert_eq!(array, []);
}

#[test]
fn merge_sort_one_element() {
    let mut array = [1];
    let length = array.len();
    merge_sort(&mut array, 0, length.saturating_sub(1), &SortOrder::Nondecreasing);
    assert_eq!(array, [1]);
}

#[test]
fn selection_sort_negative() {
    let mut array = [5, 0, -8, -6, -1, 1];
    selection_sort(&mut array, SortOrder::Nondecreasing);
    assert_eq!(array, [-8, -6, -1, 0, 1, 5]);
}

#[test]
fn merge_sort_negative_descending() {
    let mut array = [5, 0, -8, -6, -1, 1];
    merge_sort_all(&mut array, SortOrder::Nonincreasing);
    assert_eq!(array, [5, 1, 0, -1, -6, -8]);
}

#[test]
fn merge_sort_inner_range_only() {
    let mut array = [9, 5, 2, 4, 0];
    merge_sort(&mut array, 1, 3, &SortOrder::Nondecreasing);
    assert_eq!(array, [9, 2, 4, 5, 0]);
}

#[test]
fn sorts_keep_duplicates_and_extremes() {
    let input = [3, i32::MIN, 3, i32::MAX, -1, 3, 0, i32::MIN];
    for order in [SortOrder::Nondecreasing, SortOrder::Nonincreasing] {
        let mut a = input;
        let mut b = input;
        let mut c = input;
        insertion_sort(&mut a, order);
        selection_sort(&mut b, order);
        merge_sort_all(&mut c, order);
        for out in [&a, &b, &c] {
            assert!(is_ordered(out, order));
            assert!(same_items(out, &input));
        }
        assert_eq!(a, b);
        assert_eq!(b, c);
    }
}

#[test]
fn sorts_give_ordered_permutations() {
    let mut seed: u32 = 12345;
    for len in 0..40usize {
        let mut input: Vec<i32> = Vec::new();
        for _ in 0..len {
            seed = seed.wrapping_mul(1103515245).wrapping_add(12345);
            input.push(((seed >> 16) % 21) as i32 - 10);
        }
        for order in [SortOrder::Nondecreasing, SortOrder::Nonincreasing] {
            let mut a = input.clone();
            let mut b = input.clone();
            let mut c = input.clone();
            insertion_sort(&mut a, order);
            selection_sort(&mut b, order);
            merge_sort_all(&mut c, order);
            for out in [&a, &b, &c] {
                assert!(is_ordered(out, order));
                assert!(same_items(out, &input));
            }
        }
    }
}

#[test]
fn sorting_sorted_input_changes_nothing() {
    let ascending = [-4, -4, 0, 2, 2, 7, 9];
    let descending = [9, 7, 2, 2, 0, -4, -4];
    for (input, order) in [
        (ascending, SortOrder::Nondecreasing),
        (descending, SortOrder::Nonincreasing),
    ] {
        let mut a = input;
        let mut b = input;
        let mut c = input;
        insertion_sort(&mut a, order);
        selection_sort(&mut b, order);
        merge_sort_all(&mut c, order);
        assert_eq!(a, input);
        assert_eq!(b, input);
        assert_eq!(c, input);
    }
}

#[test]
fn single_element_is_unchanged_in_both_orders() {
    for order in [SortOrder::Nondecreasing, SortOrder::Nonincreasing] {
        let mut a = [-7];
        let mut b = [-7];
        let mut c = [-7];
        insertion_sort(&mut a, order);
        selection_sort(&mut b, order);
        merge_sort_all(&mut c, order);
        assert_eq!((a, b, c), ([-7], [-7], [-7]));
    }
}
