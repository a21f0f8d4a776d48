//! Classical in-memory sorting algorithms and maximum-subarray search,
//! each with a machine-checked contract.

pub mod bubble_sort;
pub mod count_sort;
pub mod digits;
pub mod heap_sort;
pub mod insertion_sort;
pub mod key_table;
pub mod laws;
pub mod max_subarray;
pub mod merge_sort;
pub mod order;
pub mod quick_sort;
