//! Stable tree sort: values are inserted into an unbalanced binary search
//! tree and read back by an in-order walk.
pub mod compare;
pub mod tree;
pub mod flatten;
pub mod heap_sort;
