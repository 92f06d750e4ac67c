//! A binary search tree whose nodes live in an arena and refer to each
//! other by index: children through owning slots, parents through plain
//! back-references used only to walk upward.
pub mod bst;
pub mod lemmas;
