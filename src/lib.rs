//! Classic data structures with verified contracts: a left-leaning red-black
//! tree, a randomized meldable heap, a linear-probing hash table and a
//! randomized quicksort.
pub mod linear_hash_table;
pub mod meldable_heap;
pub mod quicksort;
mod random;
pub mod red_black_tree;
pub mod red_black_tree_v2;
