pub mod dll;
pub mod string;
pub mod string_map;
pub mod trie;
