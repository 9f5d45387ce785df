pub mod binary_heap;
pub mod bloom_filter;
pub mod bst;
pub mod exercise;
pub mod link_list;
pub mod lis;
pub mod trie;
