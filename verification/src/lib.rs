//! Classroom data structures with verified contracts.
//!
//! The centrepiece is an ordered, mutable n-ary tree held in an index-based
//! arena (`idtree`), with constant-time structural edits and pre/post-order
//! traversal. Around it stand the usual textbook structures: stacks, queues,
//! heaps, search trees, sorting routines, and friends.

pub mod binary_search;
pub mod bsearch_tree;
pub mod cnt_occurrences;
pub mod heap;
pub mod idtree;
pub mod insertion_sort;
pub mod kth_smallest;
pub mod merge_sort;
pub mod order;
pub mod priority_queue;
pub mod queue;
pub mod quick_sort;
pub mod selection_sort;
pub mod stack;
pub mod union_find;
