//! Classic textbook algorithms with machine-checked contracts: three
//! comparison sorts parameterised by a sort order, a linear search and a
//! ripple-carry adder over big-endian bit sequences.

mod arith;
mod order;
mod search;
mod sorting;

pub use arith::{add_two_binary_integers, bits_value, two_pow};
pub use order::{before, in_order, lemma_sorted_permutation_is_unique, sorted, sorted_range, SortOrder};
pub use search::linear_search;
pub use sorting::{insertion_sort, merge_sort, selection_sort};
